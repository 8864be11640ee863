//! A personal document-search indexer: keeps a content-addressed change store
//! and a derived embedding store synchronized with a directory of text
//! documents, and serves nearest-neighbor queries over document fragments.
//!
//! The pipeline runs scan → hash → diff → fragment → embed → persist.  The
//! change store is the idempotence gate: only files whose content digest
//! moved do downstream work.  The embedding model, the vector index and the
//! relational persistence are outside collaborators; the surrounding
//! application drives them between the verified pipeline stages.
pub mod batcher;
pub mod config;
pub mod digest;
pub mod embed_store;
pub mod files;
pub mod fragment;
pub mod indexer;
pub mod infer;
pub mod path;
pub mod platform;
pub mod schema;
pub mod store;

pub use config::Config;
pub use path::FilePath;
