use indexer::digest::{hex_encode, sha256};
use indexer::path::FilePath;
use indexer::store::{ChangeStore, CreateFileProps};
use sha2::Digest;

fn p(s: &str) -> FilePath {
    FilePath::new(s.as_bytes().to_vec())
}

#[test]
fn upsert_reports_new_rows() {
    let mut store = ChangeStore::new();
    let batch = vec![
        CreateFileProps::new(p("/a"), vec![1u8; 32]),
        CreateFileProps::new(p("/b"), vec![2u8; 32]),
    ];
    let changed = store.create_many(batch);
    assert_eq!(changed.len(), 2);
    assert_eq!(changed[0].path.0, b"/a".to_vec());
    assert_eq!(changed[0].hash, vec![1u8; 32]);
    assert_eq!(changed[1].path.0, b"/b".to_vec());
    assert_eq!(changed[1].hash, vec![2u8; 32]);
}

#[test]
fn upsert_idempotent() {
    let mut store = ChangeStore::new();
    let batch = vec![
        CreateFileProps::new(p("/a"), vec![1u8; 32]),
        CreateFileProps::new(p("/b"), vec![2u8; 32]),
    ];
    store.create_many(batch);
    let again = vec![
        CreateFileProps::new(p("/a"), vec![1u8; 32]),
        CreateFileProps::new(p("/b"), vec![2u8; 32]),
    ];
    let changed = store.create_many(again);
    assert!(changed.is_empty());
    assert_eq!(store.records().len(), 2);
}

#[test]
fn upsert_detects_hash_change() {
    let mut store = ChangeStore::new();
    store.create_many(vec![
        CreateFileProps::new(p("/a"), vec![1u8; 32]),
        CreateFileProps::new(p("/b"), vec![2u8; 32]),
    ]);
    let changed = store.create_many(vec![
        CreateFileProps::new(p("/a"), vec![9u8; 32]),
        CreateFileProps::new(p("/b"), vec![2u8; 32]),
    ]);
    assert_eq!(changed.len(), 1);
    assert_eq!(changed[0].path.0, b"/a".to_vec());
    assert_eq!(changed[0].hash, vec![9u8; 32]);
    let row = store.find_one(&p("/a")).unwrap();
    assert_eq!(row.hash, vec![9u8; 32]);
}

#[test]
fn upsert_atomicity_scenario() {
    // A batch is applied as one step: after the call both rows are
    // present with their new digests, never only one of them.
    let mut store = ChangeStore::new();
    let changed = store.create_many(vec![
        CreateFileProps::new(p("/p1"), vec![11u8; 32]),
        CreateFileProps::new(p("/p2"), vec![22u8; 32]),
    ]);
    assert_eq!(changed.len(), 2);
    let r1 = store.find_one(&p("/p1")).unwrap();
    let r2 = store.find_one(&p("/p2")).unwrap();
    assert_eq!(r1.hash, vec![11u8; 32]);
    assert_eq!(r2.hash, vec![22u8; 32]);
}

#[test]
fn upsert_empty_batch() {
    let mut store = ChangeStore::new();
    let changed = store.create_many(Vec::new());
    assert!(changed.is_empty());
    assert!(store.records().is_empty());
}

#[test]
fn find_many_returns_present_rows() {
    let mut store = ChangeStore::new();
    store.create_many(vec![
        CreateFileProps::new(p("/a"), vec![1u8; 32]),
        CreateFileProps::new(p("/b"), vec![2u8; 32]),
    ]);
    let rows = store.find_many(&vec![p("/b"), p("/missing")]);
    assert_eq!(rows.len(), 1);
    assert_eq!(rows[0].path.0, b"/b".to_vec());
    assert!(store.find_one(&p("/missing")).is_none());
}

#[test]
fn digest_changes_with_any_byte() {
    let content = b"# A\nhello\n".to_vec();
    let base = sha256(&content);
    for i in 0..content.len() {
        let mut modified = content.clone();
        modified[i] ^= 0x01;
        assert_ne!(sha256(&modified), base);
    }
}

#[test]
fn digest_is_32_bytes_and_deterministic() {
    let d1 = sha256(b"x");
    let d2 = sha256(b"x");
    assert_eq!(d1.len(), 32);
    assert_eq!(d1, d2);
    assert_eq!(sha256(b"").len(), 32);
}

#[test]
fn digest_matches_collaborator() {
    let expected = sha2::Sha256::digest(b"# A\nhello\n").to_vec();
    assert_eq!(sha256(b"# A\nhello\n"), expected);
}

#[test]
fn hex_encode_expected_value() {
    assert_eq!(hex_encode(&vec![0x01, 0x02, 0x03, 0x0f, 0x10]), "0102030f10");
    assert_eq!(hex_encode(&Vec::new()), "");
    assert_eq!(hex_encode(&vec![0xde, 0xad, 0xbe, 0xef]), "deadbeef");
}

#[test]
fn hex_encode_matches_collaborator() {
    let bytes = sha256(b"cross-check");
    assert_eq!(hex_encode(&bytes), hex::encode(&bytes));
}

#[test]
fn modified_file_appears_in_next_pass() {
    // A byte flip changes the digest, and the changed digest puts the
    // path into the next pass's changed set.
    let mut store = ChangeStore::new();
    let content = b"first".to_vec();
    store.create_many(vec![CreateFileProps::new(p("/f"), sha256(&content))]);
    let mut modified = content.clone();
    modified[0] ^= 0x80;
    let changed = store.create_many(vec![CreateFileProps::new(p("/f"), sha256(&modified))]);
    assert_eq!(changed.len(), 1);
    assert_eq!(changed[0].path.0, b"/f".to_vec());
}

#[test]
fn hash_hex_renders_row_digest() {
    let mut store = ChangeStore::new();
    store.create_many(vec![CreateFileProps::new(p("/a"), vec![0xab, 0x01, 0xff])]);
    let row = store.find_one(&p("/a")).unwrap();
    assert_eq!(row.hash_hex(), "ab01ff");
    assert_eq!(row.get_id().0, b"/a".to_vec());
}
