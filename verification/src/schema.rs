use vstd::prelude::*;

verus! {

/// The conflict-target alias of the relational upsert the application
/// issues when it persists the change store.
#[derive(Clone, Copy, PartialEq, Eq, Structural)]
pub enum Excluded {
    Table,
}

/// The table and columns holding the change store's rows.
#[derive(Clone, Copy, PartialEq, Eq, Structural)]
pub enum FileTable {
    Table,
    Path,
    Hash,
}

/// The table and columns holding the embedding store's rows.
#[derive(Clone, Copy, PartialEq, Eq, Structural)]
pub enum FileEmbeddingTable {
    Table,
    FilePath,
    Embedding,
    Contents,
}

} // verus!
