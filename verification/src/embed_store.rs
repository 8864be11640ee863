use vstd::prelude::*;

use crate::path::{paths_view, FilePath};

verus! {

/// How many hits a search returns at most.
pub const TOP_K: usize = 3;

/// One row of the embedding store: a document fragment, the path of the
/// file it came from, and the vector the embedding collaborator returned
/// for it, in the opaque byte encoding the application persists.
#[derive(Debug)]
pub struct FileEmbedding {
    pub file_path: FilePath,
    pub embedding: Vec<u8>,
    pub contents: String,
}

/// The mathematical content of an embedding row.
pub struct EmbRowView {
    pub path: Seq<u8>,
    pub vector: Seq<u8>,
    pub contents: Seq<char>,
}

impl View for FileEmbedding {
    type V = EmbRowView;

    open spec fn view(&self) -> EmbRowView {
        EmbRowView { path: self.file_path@, vector: self.embedding@, contents: self.contents@ }
    }
}

impl Clone for FileEmbedding {
    fn clone(&self) -> (r: Self)
        ensures
            r@ == self@,
    {
        FileEmbedding {
            file_path: self.file_path.clone(),
            embedding: self.embedding.clone(),
            contents: self.contents.clone(),
        }
    }
}

impl FileEmbedding {
    /// The row's identity: the path it was derived from.
    pub fn get_id(&self) -> (r: FilePath)
        ensures
            r@ == self.file_path@,
    {
        self.file_path.clone()
    }
}

/// A row handed to `create_many`.
pub struct CreateFileEmbeddingProps {
    pub file_path: FilePath,
    pub embedding: Vec<u8>,
    pub contents: String,
}

impl View for CreateFileEmbeddingProps {
    type V = EmbRowView;

    open spec fn view(&self) -> EmbRowView {
        EmbRowView { path: self.file_path@, vector: self.embedding@, contents: self.contents@ }
    }
}

impl CreateFileEmbeddingProps {
    pub fn new(file_path: FilePath, embedding: Vec<u8>, contents: String) -> (r: Self)
        ensures
            r@.path == file_path@,
            r@.vector == embedding@,
            r@.contents == contents@,
    {
        CreateFileEmbeddingProps { file_path, embedding, contents }
    }
}

/// The rows of `rs` whose path is one of `ids`, in store order.
pub open spec fn rows_with(rs: Seq<EmbRowView>, ids: Seq<Seq<u8>>) -> Seq<EmbRowView>
    decreases rs.len(),
{
    if rs.len() == 0 {
        Seq::empty()
    } else {
        let prev = rows_with(rs.drop_last(), ids);
        if ids.contains(rs.last().path) {
            prev.push(rs.last())
        } else {
            prev
        }
    }
}

/// The first `k` of the ranked row positions resolved against the store's
/// rows, in ranked order; a position beyond the store contributes nothing.
pub open spec fn selected(rs: Seq<EmbRowView>, ranked: Seq<usize>, k: int) -> Seq<EmbRowView>
    decreases ranked.len(),
{
    if ranked.len() == 0 || k <= 0 {
        Seq::empty()
    } else if ranked.first() < rs.len() {
        seq![rs[ranked.first() as int]] + selected(rs, ranked.drop_first(), k - 1)
    } else {
        selected(rs, ranked.drop_first(), k)
    }
}

/// A search against an empty store finds nothing, whatever positions the
/// vector index hands back: an empty result set, never an error.
pub proof fn lemma_search_empty_store(ranked: Seq<usize>, k: int)
    ensures
        selected(Seq::<EmbRowView>::empty(), ranked, k).len() == 0,
    decreases ranked.len(),
{
    if ranked.len() > 0 && k > 0 {
        lemma_search_empty_store(ranked.drop_first(), k);
    }
}

/// The persisted fragment-embedding rows: append-only derived data, never
/// the source of truth for whether a file changed.  The surrounding
/// application mirrors it to its relational table and vector index.
pub struct EmbeddingStore {
    rows: Vec<FileEmbedding>,
}

impl View for EmbeddingStore {
    type V = Seq<EmbRowView>;

    closed spec fn view(&self) -> Seq<EmbRowView> {
        self.rows@.map_values(|r: FileEmbedding| r@)
    }
}

impl EmbeddingStore {
    /// An empty store.
    pub fn new() -> (r: Self)
        ensures
            r@ == Seq::<EmbRowView>::empty(),
    {
        let r = EmbeddingStore { rows: Vec::new() };
        proof {
            assert(r@ =~= Seq::<EmbRowView>::empty());
        }
        r
    }

    /// How many rows the store holds.
    pub fn len(&self) -> (n: usize)
        ensures
            n == self@.len(),
    {
        self.rows.len()
    }

    /// The rows themselves, for the application to persist.
    pub fn rows(&self) -> (r: &Vec<FileEmbedding>)
        ensures
            r@.map_values(|x: FileEmbedding| x@) == self@,
    {
        &self.rows
    }

    /// Bulk-appends rows: the store afterwards holds its old rows followed
    /// by the given ones, in order.  Empty input appends nothing.
    pub fn create_many(&mut self, rows: Vec<CreateFileEmbeddingProps>)
        ensures
            final(self)@ == old(self)@ + rows@.map_values(|p: CreateFileEmbeddingProps| p@),
    {
        let ghost pv = rows@.map_values(|p: CreateFileEmbeddingProps| p@);
        let n = rows.len();
        let mut i: usize = 0;
        while i < n
            invariant
                i <= n,
                n == rows@.len(),
                pv == rows@.map_values(|p: CreateFileEmbeddingProps| p@),
                self@ == old(self)@ + pv.take(i as int),
            decreases n - i,
        {
            let p = &rows[i];
            self.rows.push(FileEmbedding {
                file_path: p.file_path.clone(),
                embedding: p.embedding.clone(),
                contents: p.contents.clone(),
            });
            proof {
                assert(pv.take(i + 1) =~= pv.take(i as int).push(pv[i as int]));
                assert(self.rows@.last()@ == pv[i as int]);
                assert(self@ =~= (old(self)@ + pv.take(i as int)).push(pv[i as int]));
                assert(self@ =~= old(self)@ + pv.take(i + 1));
            }
            i += 1;
        }
        proof {
            assert(pv.take(n as int) =~= pv);
        }
    }

    /// The rows recorded for the given paths, in store order.
    pub fn find_many(&self, ids: &Vec<FilePath>) -> (r: Vec<FileEmbedding>)
        ensures
            r@.map_values(|x: FileEmbedding| x@)
                == rows_with(self@, paths_view(ids@)),
    {
        let ghost iv = paths_view(ids@);
        let mut out: Vec<FileEmbedding> = Vec::new();
        let n = self.rows.len();
        let mut i: usize = 0;
        while i < n
            invariant
                i <= n,
                n == self@.len(),
                iv == paths_view(ids@),
                out@.map_values(|x: FileEmbedding| x@) == rows_with(self@.take(i as int), iv),
            decreases n - i,
        {
            proof {
                assert(self@.take(i + 1).drop_last() =~= self@.take(i as int));
                assert(self@.take(i + 1).last() == self@[i as int]);
            }
            if contains_path(ids, &self.rows[i].file_path) {
                out.push(self.rows[i].clone());
                proof {
                    assert(out@.map_values(|x: FileEmbedding| x@)
                        =~= rows_with(self@.take(i + 1), iv));
                }
            }
            i += 1;
        }
        proof {
            assert(self@.take(n as int) =~= self@);
        }
        out
    }

    /// The first row recorded for one path, if any.
    pub fn find_one(&self, id: &FilePath) -> (r: Option<FileEmbedding>)
        ensures
            ({
                let hits = rows_with(self@, seq![id@]);
                match r {
                    Some(f) => hits.len() > 0 && f@ == hits.first(),
                    None => hits.len() == 0,
                }
            }),
    {
        let mut ids: Vec<FilePath> = Vec::new();
        ids.push(id.clone());
        proof {
            assert(paths_view(ids@) =~= seq![id@]);
        }
        let mut hits = self.find_many(&ids);
        if hits.len() == 0 {
            None
        } else {
            let f = hits.remove(0);
            proof {
                assert(f@ == rows_with(self@, seq![id@])[0]);
            }
            Some(f)
        }
    }

    /// Resolves the rank order the vector index returned into rows: the
    /// first `k` ranked positions, in rank order, joined to the store.
    pub fn search_hits(&self, ranked: &Vec<usize>, k: usize) -> (r: Vec<FileEmbedding>)
        ensures
            r@.map_values(|x: FileEmbedding| x@) == selected(self@, ranked@, k as int),
    {
        let ghost rv = ranked@;
        let mut out: Vec<FileEmbedding> = Vec::new();
        proof {
            assert(rv.skip(0) =~= rv);
            assert(out@.map_values(|x: FileEmbedding| x@) + selected(self@, rv, k as int)
                =~= selected(self@, rv, k as int));
        }
        let n = ranked.len();
        let mut i: usize = 0;
        while i < n && out.len() < k
            invariant
                i <= n,
                n == ranked@.len(),
                rv == ranked@,
                out@.len() <= k,
                selected(self@, rv, k as int) == out@.map_values(|x: FileEmbedding| x@)
                    + selected(self@, rv.skip(i as int), k - out@.len()),
            decreases n - i,
        {
            proof {
                assert(rv.skip(i as int).first() == rv[i as int]);
                assert(rv.skip(i as int).drop_first() =~= rv.skip(i + 1));
            }
            let idx = ranked[i];
            if idx < self.rows.len() {
                let ghost before = out@.map_values(|x: FileEmbedding| x@);
                out.push(self.rows[idx].clone());
                proof {
                    assert(self@[idx as int] == self.rows@[idx as int]@);
                    assert(out@.map_values(|x: FileEmbedding| x@)
                        =~= before.push(self@[idx as int]));
                    assert(before + seq![self@[idx as int]]
                        + selected(self@, rv.skip(i + 1), k - out@.len())
                        =~= out@.map_values(|x: FileEmbedding| x@)
                        + selected(self@, rv.skip(i + 1), k - out@.len()));
                }
            }
            i += 1;
        }
        proof {
            if i == n {
                assert(rv.skip(n as int) =~= Seq::<usize>::empty());
            }
            assert(out@.map_values(|x: FileEmbedding| x@)
                + selected(self@, rv.skip(i as int), k - out@.len())
                =~= out@.map_values(|x: FileEmbedding| x@));
        }
        out
    }
}

fn contains_path(ids: &Vec<FilePath>, p: &FilePath) -> (r: bool)
    ensures
        r == paths_view(ids@).contains(p@),
{
    let n = ids.len();
    let mut i: usize = 0;
    while i < n
        invariant
            i <= n,
            n == ids@.len(),
            forall|k: int| 0 <= k < i ==> paths_view(ids@)[k] != p@,
        decreases n - i,
    {
        if ids[i].is_same(p) {
            proof {
                assert(paths_view(ids@)[i as int] == p@);
            }
            return true;
        }
        i += 1;
    }
    false
}

} // verus!
