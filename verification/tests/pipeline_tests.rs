use indexer::batcher::EmbeddedText;
use indexer::digest::sha256;
use indexer::embed_store::{CreateFileEmbeddingProps, EmbeddingStore};
use indexer::files::HashInput;
use indexer::indexer::{IndexerService, ParsedFile};
use indexer::path::FilePath;
use indexer::store::CreateFileProps;

fn p(s: &str) -> FilePath {
    FilePath::new(s.as_bytes().to_vec())
}

fn lines(ls: &[&str]) -> Vec<String> {
    ls.iter().map(|s| s.to_string()).collect()
}

fn embedded(text: &str, vector: Vec<u8>) -> EmbeddedText {
    EmbeddedText { text: text.to_string(), vector }
}

#[test]
fn end_to_end_scenario() {
    let mut svc = IndexerService::try_new('#', 256);
    let path = p("/root/notes.md");
    let content = b"# A\nhello\n".to_vec();

    // Full pass: the change store gains (notes.md, sha256(content)).
    let inputs = vec![HashInput { path: path.clone(), bytes: Some(content.clone()) }];
    let changed = svc.plan_index_pass(&inputs);
    assert_eq!(changed.len(), 1);
    assert_eq!(changed[0].path.0, path.0);
    assert_eq!(changed[0].hash, sha256(&content));

    // The changed file fragments into "# A" and "hello".
    let parsed = vec![ParsedFile { path: path.clone(), lines: Some(lines(&["# A", "hello"])) }];
    let requests = svc.collect_fragment_texts(&parsed);
    assert_eq!(requests.len(), 2);
    assert_eq!(requests[0].text, "# A");
    assert_eq!(requests[1].text, "hello");

    // The embedding collaborator answers one batched call of size 2.
    let results = vec![embedded("# A", vec![1, 1]), embedded("hello", vec![2, 2])];
    svc.complete_index_pass(&requests, &results);
    let rows = svc.embedding_rows();
    assert_eq!(rows.len(), 2);
    assert_eq!(rows[0].contents, "# A");
    assert_eq!(rows[0].embedding, vec![1, 1]);
    assert_eq!(rows[0].file_path.0, path.0);
    assert_eq!(rows[1].contents, "hello");
    assert_eq!(rows[1].embedding, vec![2, 2]);

    // A second full pass with no modification inserts zero new rows.
    let changed2 = svc.plan_index_pass(&inputs);
    assert!(changed2.is_empty());
    let requests2 = svc.collect_fragment_texts(&Vec::new());
    assert!(requests2.is_empty());
    svc.complete_index_pass(&requests2, &Vec::new());
    assert_eq!(svc.embedding_rows().len(), 2);

    // Editing the file re-embeds exactly its current fragments.
    let edited = b"# A\nhello\nworld\n".to_vec();
    let inputs3 = vec![HashInput { path: path.clone(), bytes: Some(edited.clone()) }];
    let changed3 = svc.plan_index_pass(&inputs3);
    assert_eq!(changed3.len(), 1);
    assert_eq!(changed3[0].hash, sha256(&edited));
    let parsed3 = vec![ParsedFile {
        path: path.clone(),
        lines: Some(lines(&["# A", "hello", "world"])),
    }];
    let requests3 = svc.collect_fragment_texts(&parsed3);
    assert_eq!(requests3.len(), 2);
    assert_eq!(requests3[0].text, "# A");
    assert_eq!(requests3[1].text, "hello\nworld");
}

#[test]
fn unreadable_file_is_dropped_from_pass() {
    let mut svc = IndexerService::try_new('#', 256);
    let inputs = vec![
        HashInput { path: p("/gone"), bytes: None },
        HashInput { path: p("/there"), bytes: Some(b"text".to_vec()) },
    ];
    let changed = svc.plan_index_pass(&inputs);
    assert_eq!(changed.len(), 1);
    assert_eq!(changed[0].path.0, b"/there".to_vec());
}

#[test]
fn unparsable_file_skipped_without_failing_pass() {
    let svc = IndexerService::try_new('#', 256);
    let parsed = vec![
        ParsedFile { path: p("/binary"), lines: None },
        ParsedFile { path: p("/ok"), lines: Some(lines(&["x"])) },
    ];
    let requests = svc.collect_fragment_texts(&parsed);
    assert_eq!(requests.len(), 1);
    assert_eq!(requests[0].text, "x");
    assert_eq!(requests[0].path.0, b"/ok".to_vec());
}

#[test]
fn repeated_fragment_embedded_once() {
    let svc = IndexerService::try_new('#', 256);
    let parsed = vec![
        ParsedFile { path: p("/a"), lines: Some(lines(&["# Common x", "alpha"])) },
        ParsedFile { path: p("/b"), lines: Some(lines(&["# Common x", "beta"])) },
    ];
    let requests = svc.collect_fragment_texts(&parsed);
    let texts: Vec<&str> = requests.iter().map(|r| r.text.as_str()).collect();
    assert_eq!(texts, vec!["# Common x", "alpha", "beta"]);
    // The repeated heading is charged to the last file that produced it.
    assert_eq!(requests[0].path.0, b"/b".to_vec());
}

#[test]
fn request_without_result_is_dropped() {
    let mut svc = IndexerService::try_new('#', 256);
    let parsed = vec![ParsedFile { path: p("/a"), lines: Some(lines(&["one", "", "two"])) }];
    let requests = svc.collect_fragment_texts(&parsed);
    assert_eq!(requests.len(), 1);
    assert_eq!(requests[0].text, "one\n\ntwo");
    svc.complete_index_pass(&requests, &Vec::new());
    assert_eq!(svc.embedding_rows().len(), 0);
}

#[test]
fn embedding_store_appends_in_order() {
    let mut store = EmbeddingStore::new();
    assert_eq!(store.len(), 0);
    store.create_many(vec![
        CreateFileEmbeddingProps::new(p("/a"), vec![1], "fa".to_string()),
        CreateFileEmbeddingProps::new(p("/b"), vec![2], "fb".to_string()),
    ]);
    store.create_many(Vec::new());
    store.create_many(vec![CreateFileEmbeddingProps::new(p("/a"), vec![3], "fa2".to_string())]);
    assert_eq!(store.len(), 3);
    let rows = store.rows();
    assert_eq!(rows[0].contents, "fa");
    assert_eq!(rows[2].contents, "fa2");
}

#[test]
fn embedding_store_find_by_path() {
    let mut store = EmbeddingStore::new();
    store.create_many(vec![
        CreateFileEmbeddingProps::new(p("/a"), vec![1], "fa".to_string()),
        CreateFileEmbeddingProps::new(p("/b"), vec![2], "fb".to_string()),
        CreateFileEmbeddingProps::new(p("/a"), vec![3], "fa2".to_string()),
    ]);
    let hits = store.find_many(&vec![p("/a")]);
    assert_eq!(hits.len(), 2);
    assert_eq!(hits[0].contents, "fa");
    assert_eq!(hits[1].contents, "fa2");
    let first = store.find_one(&p("/a")).unwrap();
    assert_eq!(first.contents, "fa");
    assert!(store.find_one(&p("/c")).is_none());
}

#[test]
fn search_hits_resolve_ranked_rows() {
    let mut svc = IndexerService::try_new('#', 256);
    let requests = svc.collect_fragment_texts(&vec![ParsedFile {
        path: p("/doc"),
        lines: Some(lines(&["alpha", "# B x", "gamma"])),
    }]);
    let results = vec![
        embedded("alpha", vec![1]),
        embedded("# B x", vec![2]),
        embedded("gamma", vec![3]),
    ];
    svc.complete_index_pass(&requests, &results);
    // The vector index ranks row 2, then row 0; position 9 is stale.
    let hits = svc.search_hits(&vec![2, 9, 0], 3);
    assert_eq!(hits.len(), 2);
    assert_eq!(hits[0].contents, "gamma");
    assert_eq!(hits[1].contents, "alpha");
    // The top-K bound truncates.
    let only_one = svc.search_hits(&vec![2, 0, 1], 1);
    assert_eq!(only_one.len(), 1);
    assert_eq!(only_one[0].contents, "gamma");
}

#[test]
fn search_on_empty_store_returns_nothing() {
    let svc = IndexerService::try_new('#', 256);
    assert!(svc.search_hits(&vec![0, 1, 2], 3).is_empty());
}

#[test]
fn seeded_store_skips_unchanged_files() {
    let mut svc = IndexerService::try_new('#', 256);
    let content = b"known".to_vec();
    svc.seed_change_store(vec![CreateFileProps::new(p("/known"), sha256(&content))]);

    let inputs = vec![
        HashInput { path: p("/known"), bytes: Some(content) },
        HashInput { path: p("/new"), bytes: Some(b"fresh".to_vec()) },
    ];
    let changed = svc.plan_index_pass(&inputs);
    assert_eq!(changed.len(), 1);
    assert_eq!(changed[0].path.0, b"/new".to_vec());
}
