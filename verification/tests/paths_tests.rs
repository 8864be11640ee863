use indexer::config::Config;
use indexer::files::{collect_files, debounced_batch, filter_by_extensions, ScanEntry, WatchEvent};
use indexer::path::FilePath;
use indexer::platform::{get_db_path, DB_NAME};

fn p(s: &str) -> FilePath {
    FilePath::new(s.as_bytes().to_vec())
}

#[test]
fn filepath_holds_bytes() {
    let path = FilePath::new(vec![0x2f, 0x61]);
    assert_eq!(path.0, b"/a".to_vec());
    assert!(path.is_same(&p("/a")));
    assert!(!path.is_same(&p("/b")));
    let cloned = path.clone();
    assert_eq!(cloned.0, path.0);
}

#[test]
fn db_path_joins_data_dir() {
    assert_eq!(DB_NAME, "db.sqlite3");
    let joined = get_db_path(&p("/home/u/.local/share/indexer"));
    assert_eq!(joined.0, b"/home/u/.local/share/indexer/db.sqlite3".to_vec());
    let trailing = get_db_path(&p("/data/"));
    assert_eq!(trailing.0, b"/data/db.sqlite3".to_vec());
}

#[test]
fn extension_rules() {
    assert!(p("/dir/notes.md").has_extension(b"md"));
    assert!(p("notes.md").has_extension(b"md"));
    assert!(p("/dir/archive.tar.gz").has_extension(b"gz"));
    assert!(!p("/dir/archive.tar.gz").has_extension(b"tar.gz"));
    assert!(!p("/dir/.profile").has_extension(b"profile"));
    assert!(!p("/dir.d/file").has_extension(b"d"));
    assert!(!p("/dir/trailing.").has_extension(b""));
    assert!(!p("/dir/plain").has_extension(b"md"));
}

#[test]
fn filter_by_extensions_keeps_wanted() {
    let paths = vec![p("/a/x.org"), p("/a/y.md"), p("/a/z.txt"), p("/a/plain")];
    let kept = filter_by_extensions(&paths, &vec![b"org".to_vec(), b"md".to_vec()]);
    let names: Vec<Vec<u8>> = kept.iter().map(|q| q.0.clone()).collect();
    assert_eq!(names, vec![b"/a/x.org".to_vec(), b"/a/y.md".to_vec()]);
}

#[test]
fn collect_files_drops_directories() {
    let entries = vec![
        ScanEntry { path: p("/r/sub"), is_dir: true },
        ScanEntry { path: p("/r/a.md"), is_dir: false },
        ScanEntry { path: p("/r/sub/b.md"), is_dir: false },
    ];
    let files = collect_files(&entries);
    let names: Vec<Vec<u8>> = files.iter().map(|q| q.0.clone()).collect();
    assert_eq!(names, vec![b"/r/a.md".to_vec(), b"/r/sub/b.md".to_vec()]);
}

#[test]
fn debounced_batch_keeps_only_files() {
    let events = vec![
        WatchEvent { path: p("/r/a.md"), is_file: true },
        WatchEvent { path: p("/r/deleted.md"), is_file: false },
        WatchEvent { path: p("/r/dir"), is_file: false },
        WatchEvent { path: p("/r/b.md"), is_file: true },
    ];
    let batch = debounced_batch(&events);
    let names: Vec<Vec<u8>> = batch.iter().map(|q| q.0.clone()).collect();
    assert_eq!(names, vec![b"/r/a.md".to_vec(), b"/r/b.md".to_vec()]);
}

#[test]
fn config_falls_back_to_default() {
    let loaded = Config::from_parsed(Some(Config { huggingface_token: Some("tk".to_string()) }));
    assert_eq!(loaded.huggingface_token.as_deref(), Some("tk"));
    let fallback = Config::from_parsed(None);
    assert!(fallback.huggingface_token.is_none());
    let default = Config::default();
    assert!(default.huggingface_token.is_none());
}
