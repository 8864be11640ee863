use vstd::prelude::*;

use crate::path::FilePath;

verus! {

/// One row of the change store: the path of a file and the content digest it
/// had at the last successful index pass.
#[derive(Debug)]
pub struct File {
    pub path: FilePath,
    pub hash: Vec<u8>,
}

/// The mathematical content of a `File` row or of a row about to be written.
pub struct FileView {
    pub path: Seq<u8>,
    pub hash: Seq<u8>,
}

impl View for File {
    type V = FileView;

    open spec fn view(&self) -> FileView {
        FileView { path: self.path@, hash: self.hash@ }
    }
}

impl Clone for File {
    fn clone(&self) -> (r: Self)
        ensures
            r@ == self@,
    {
        File { path: self.path.clone(), hash: self.hash.clone() }
    }
}

impl File {
    /// The row's identity: its path.
    pub fn get_id(&self) -> (r: FilePath)
        ensures
            r@ == self.path@,
    {
        self.path.clone()
    }

    /// The row's digest rendered as lower-case hexadecimal, for display.
    pub fn hash_hex(&self) -> (r: String)
        ensures
            r@ == crate::digest::hex_of(self.hash@),
    {
        crate::digest::hex_encode(&self.hash)
    }
}

/// A row handed to `create_many`: the path of a file and its freshly
/// computed digest.
pub struct CreateFileProps {
    pub path: FilePath,
    pub hash: Vec<u8>,
}

impl View for CreateFileProps {
    type V = FileView;

    open spec fn view(&self) -> FileView {
        FileView { path: self.path@, hash: self.hash@ }
    }
}

impl CreateFileProps {
    pub fn new(path: FilePath, hash: Vec<u8>) -> (r: Self)
        ensures
            r@.path == path@,
            r@.hash == hash@,
    {
        CreateFileProps { path, hash }
    }
}

/// The mapping a sequence of rows represents, later rows overriding earlier
/// ones with the same path.
pub open spec fn map_of(rs: Seq<File>) -> Map<Seq<u8>, Seq<u8>>
    decreases rs.len(),
{
    if rs.len() == 0 {
        Map::empty()
    } else {
        map_of(rs.drop_last()).insert(rs.last().path@, rs.last().hash@)
    }
}

/// No two rows share a path.
pub open spec fn distinct_paths(rs: Seq<File>) -> bool {
    forall|i: int, j: int| 0 <= i < j < rs.len() ==> rs[i].path@ != rs[j].path@
}

/// The store's mapping after a batch is applied in order: every batch entry
/// is written, later entries overriding earlier ones with the same path.
pub open spec fn store_after(m: Map<Seq<u8>, Seq<u8>>, b: Seq<FileView>) -> Map<Seq<u8>, Seq<u8>>
    decreases b.len(),
{
    if b.len() == 0 {
        m
    } else {
        store_after(m, b.drop_last()).insert(b.last().path, b.last().hash)
    }
}

/// The batch entries that actually change the store when the batch is
/// applied in order: those whose path is absent, or present with a
/// different digest, at the point the entry is reached.
pub open spec fn changed_after(m: Map<Seq<u8>, Seq<u8>>, b: Seq<FileView>) -> Seq<FileView>
    decreases b.len(),
{
    if b.len() == 0 {
        Seq::empty()
    } else {
        let prev = changed_after(m, b.drop_last());
        let cur = store_after(m, b.drop_last());
        if !cur.contains_key(b.last().path) || cur[b.last().path] != b.last().hash {
            prev.push(b.last())
        } else {
            prev
        }
    }
}

/// The persisted path-to-digest mapping: the single source of truth for
/// whether downstream work is performed for a path.  Kept as rows with
/// pairwise distinct paths; the surrounding application mirrors it to its
/// relational table.  A path's row is only ever overwritten, never
/// deleted: a removed file leaves its last row behind.
pub struct ChangeStore {
    records: Vec<File>,
}

impl View for ChangeStore {
    type V = Map<Seq<u8>, Seq<u8>>;

    closed spec fn view(&self) -> Map<Seq<u8>, Seq<u8>> {
        map_of(self.records@)
    }
}

impl ChangeStore {
    /// Rows are pairwise distinct by path.
    pub closed spec fn wf(&self) -> bool {
        distinct_paths(self.records@)
    }

    /// An empty store.
    pub fn new() -> (r: Self)
        ensures
            r.wf(),
            r@ == Map::<Seq<u8>, Seq<u8>>::empty(),
    {
        ChangeStore { records: Vec::new() }
    }

    /// The rows of the store, one per path of its mapping.
    pub fn records(&self) -> (r: &Vec<File>)
        requires
            self.wf(),
        ensures
            distinct_paths(r@),
            map_of(r@) == self@,
    {
        &self.records
    }

    fn find_index(&self, p: &FilePath) -> (r: Option<usize>)
        ensures
            match r {
                Some(j) => j < self.records@.len() && self.records@[j as int].path@ == p@,
                None => forall|i: int|
                    0 <= i < self.records@.len() ==> self.records@[i].path@ != p@,
            },
    {
        let n = self.records.len();
        let mut i: usize = 0;
        while i < n
            invariant
                i <= n,
                n == self.records@.len(),
                forall|k: int| 0 <= k < i ==> self.records@[k].path@ != p@,
            decreases n - i,
        {
            if self.records[i].path.is_same(p) {
                return Some(i);
            }
            i += 1;
        }
        None
    }
}

/// A path is in the mapping exactly when some row carries it.
proof fn lemma_map_of_contains(rs: Seq<File>, p: Seq<u8>)
    ensures
        map_of(rs).contains_key(p) <==> exists|i: int| 0 <= i < rs.len() && rs[i].path@ == p,
    decreases rs.len(),
{
    if rs.len() > 0 {
        lemma_map_of_contains(rs.drop_last(), p);
        if map_of(rs).contains_key(p) {
            if rs.last().path@ == p {
                assert(rs[rs.len() - 1].path@ == p);
            } else {
                let i = choose|i: int| 0 <= i < rs.drop_last().len() && rs.drop_last()[i].path@ == p;
                assert(rs[i].path@ == p);
            }
        }
        if exists|i: int| 0 <= i < rs.len() && rs[i].path@ == p {
            let i = choose|i: int| 0 <= i < rs.len() && rs[i].path@ == p;
            if i < rs.len() - 1 {
                assert(rs.drop_last()[i].path@ == p);
            }
        }
    }
}

/// With distinct paths, the mapping sends row `j`'s path to row `j`'s hash.
proof fn lemma_map_of_index(rs: Seq<File>, j: int)
    requires
        distinct_paths(rs),
        0 <= j < rs.len(),
    ensures
        map_of(rs).contains_key(rs[j].path@),
        map_of(rs)[rs[j].path@] == rs[j].hash@,
    decreases rs.len(),
{
    if j == rs.len() - 1 {
    } else {
        assert(distinct_paths(rs.drop_last()));
        lemma_map_of_index(rs.drop_last(), j);
        assert(rs[j].path@ != rs.last().path@);
    }
}

/// Replacing row `j` by a row with the same path updates the mapping at
/// that path alone.
proof fn lemma_map_of_update(rs: Seq<File>, j: int, f: File)
    requires
        distinct_paths(rs),
        0 <= j < rs.len(),
        f.path@ == rs[j].path@,
    ensures
        map_of(rs.update(j, f)) == map_of(rs).insert(f.path@, f.hash@),
    decreases rs.len(),
{
    if j == rs.len() - 1 {
        assert(rs.update(j, f).drop_last() =~= rs.drop_last());
        assert(map_of(rs.update(j, f)) =~= map_of(rs).insert(f.path@, f.hash@));
    } else {
        assert(distinct_paths(rs.drop_last()));
        lemma_map_of_update(rs.drop_last(), j, f);
        assert(rs.update(j, f).drop_last() =~= rs.drop_last().update(j, f));
        assert(rs.update(j, f).last() == rs.last());
        assert(rs.last().path@ != f.path@);
        assert(map_of(rs.update(j, f)) =~= map_of(rs).insert(f.path@, f.hash@));
    }
}

impl ChangeStore {
    /// Applies a batch of freshly hashed rows and reports exactly those that
    /// changed the store: rows whose path was absent or carried a different
    /// digest.  The whole batch is applied in one step — the final mapping
    /// is determined by the old mapping and the batch alone — and an
    /// unchanged row writes nothing.
    pub fn create_many(&mut self, files: Vec<CreateFileProps>) -> (changed: Vec<File>)
        requires
            old(self).wf(),
        ensures
            final(self).wf(),
            final(self)@ == store_after(old(self)@, files@.map_values(|p: CreateFileProps| p@)),
            changed@.map_values(|f: File| f@)
                == changed_after(old(self)@, files@.map_values(|p: CreateFileProps| p@)),
    {
        let ghost bv = files@.map_values(|p: CreateFileProps| p@);
        let mut changed: Vec<File> = Vec::new();
        let n = files.len();
        let mut i: usize = 0;
        while i < n
            invariant
                i <= n,
                n == files@.len(),
                bv == files@.map_values(|p: CreateFileProps| p@),
                self.wf(),
                self@ == store_after(old(self)@, bv.take(i as int)),
                changed@.map_values(|f: File| f@) == changed_after(old(self)@, bv.take(i as int)),
            decreases n - i,
        {
            let f = &files[i];
            let row = File { path: f.path.clone(), hash: f.hash.clone() };
            let row_report = row.clone();
            proof {
                assert(bv.take(i + 1).drop_last() =~= bv.take(i as int));
                assert(bv.take(i + 1).last() == bv[i as int]);
            }
            match self.find_index(&f.path) {
                None => {
                    proof {
                        lemma_map_of_contains(self.records@, f.path@);
                        assert(self.records@.push(row).drop_last() =~= self.records@);
                    }
                    self.records.push(row);
                    changed.push(row_report);
                    proof {
                        assert(self@ =~= store_after(old(self)@, bv.take(i + 1)));
                        assert(changed@.map_values(|f: File| f@)
                            =~= changed_after(old(self)@, bv.take(i + 1)));
                    }
                }
                Some(j) => {
                    proof {
                        lemma_map_of_index(self.records@, j as int);
                    }
                    if bytes_eq(&self.records[j].hash, &f.hash) {
                        proof {
                            assert(self@.insert(f.path@, f.hash@) =~= self@);
                            assert(self@ =~= store_after(old(self)@, bv.take(i + 1)));
                        }
                    } else {
                        proof {
                            lemma_map_of_update(self.records@, j as int, row);
                        }
                        self.records.set(j, row);
                        changed.push(row_report);
                        proof {
                            assert(self@ =~= store_after(old(self)@, bv.take(i + 1)));
                            assert(changed@.map_values(|f: File| f@)
                                =~= changed_after(old(self)@, bv.take(i + 1)));
                        }
                    }
                }
            }
            i += 1;
        }
        proof {
            assert(bv.take(n as int) =~= bv);
        }
        changed
    }

    /// The row stored for one path, if any.
    pub fn find_one(&self, id: &FilePath) -> (r: Option<File>)
        requires
            self.wf(),
        ensures
            match r {
                Some(f) => self@.contains_key(id@) && f.path@ == id@ && f.hash@ == self@[id@],
                None => !self@.contains_key(id@),
            },
    {
        match self.find_index(id) {
            Some(j) => {
                proof {
                    lemma_map_of_index(self.records@, j as int);
                }
                Some(self.records[j].clone())
            }
            None => {
                proof {
                    lemma_map_of_contains(self.records@, id@);
                }
                None
            }
        }
    }

    /// The rows stored for the given paths, in the order the paths are
    /// given; paths without a row contribute nothing.
    pub fn find_many(&self, ids: &Vec<FilePath>) -> (r: Vec<File>)
        requires
            self.wf(),
        ensures
            r@.map_values(|f: File| f@) == found_rows(self@, crate::path::paths_view(ids@)),
    {
        let ghost iv = crate::path::paths_view(ids@);
        let mut out: Vec<File> = Vec::new();
        let n = ids.len();
        let mut i: usize = 0;
        while i < n
            invariant
                i <= n,
                n == ids@.len(),
                iv == crate::path::paths_view(ids@),
                self.wf(),
                out@.map_values(|f: File| f@) == found_rows(self@, iv.take(i as int)),
            decreases n - i,
        {
            proof {
                assert(iv.take(i + 1).drop_last() =~= iv.take(i as int));
                assert(iv.take(i + 1).last() == iv[i as int]);
            }
            match self.find_one(&ids[i]) {
                Some(f) => {
                    out.push(f);
                    proof {
                        assert(out@.map_values(|f: File| f@)
                            =~= found_rows(self@, iv.take(i + 1)));
                    }
                }
                None => {
                    proof {
                        assert(out@.map_values(|f: File| f@)
                            =~= found_rows(self@, iv.take(i + 1)));
                    }
                }
            }
            i += 1;
        }
        proof {
            assert(iv.take(n as int) =~= iv);
        }
        out
    }
}

/// One row per given path present in the mapping, in the paths' order.
pub open spec fn found_rows(m: Map<Seq<u8>, Seq<u8>>, ids: Seq<Seq<u8>>) -> Seq<FileView>
    decreases ids.len(),
{
    if ids.len() == 0 {
        Seq::empty()
    } else {
        let prev = found_rows(m, ids.drop_last());
        if m.contains_key(ids.last()) {
            prev.push(FileView { path: ids.last(), hash: m[ids.last()] })
        } else {
            prev
        }
    }
}

fn bytes_eq(a: &Vec<u8>, b: &Vec<u8>) -> (r: bool)
    ensures
        r == (a@ == b@),
{
    let r = a == b;
    proof {
        if a@.len() == b@.len() && (forall|i: int| 0 <= i < a@.len() ==> a@[i] == b@[i]) {
            assert(a@ =~= b@);
        }
    }
    r
}

/// Re-applying rows the store already holds changes nothing: the mapping is
/// untouched and the changed set is empty.  This is the idempotence gate —
/// an index pass over an unchanged tree does zero downstream work.
pub proof fn lemma_idempotent_upsert(m: Map<Seq<u8>, Seq<u8>>, b: Seq<FileView>)
    requires
        forall|i: int| 0 <= i < b.len()
            ==> m.contains_key(#[trigger] b[i].path) && m[b[i].path] == b[i].hash,
    ensures
        store_after(m, b) == m,
        changed_after(m, b).len() == 0,
    decreases b.len(),
{
    if b.len() > 0 {
        assert(forall|i: int| 0 <= i < b.drop_last().len()
            ==> m.contains_key(#[trigger] b.drop_last()[i].path)
                && m[b.drop_last()[i].path] == b.drop_last()[i].hash);
        lemma_idempotent_upsert(m, b.drop_last());
        assert(store_after(m, b) =~= m);
    }
}

/// A batch entry whose path is stored with a different digest, and whose
/// path occurs only once in the batch, is reported as changed.
pub proof fn lemma_modified_path_is_changed(m: Map<Seq<u8>, Seq<u8>>, b: Seq<FileView>, k: int)
    requires
        0 <= k < b.len(),
        !m.contains_key(b[k].path) || m[b[k].path] != b[k].hash,
        forall|j: int| 0 <= j < b.len() && j != k ==> b[j].path != b[k].path,
    ensures
        exists|t: int| 0 <= t < changed_after(m, b).len()
            && changed_after(m, b)[t] == b[k],
    decreases b.len(),
{
    if k == b.len() - 1 {
        lemma_store_after_other(m, b.drop_last(), b[k].path);
        let c = changed_after(m, b);
        assert(c[c.len() - 1] == b[k]);
    } else {
        assert(forall|j: int| 0 <= j < b.drop_last().len() && j != k
            ==> b.drop_last()[j].path != b.drop_last()[k].path);
        lemma_modified_path_is_changed(m, b.drop_last(), k);
        let prev = changed_after(m, b.drop_last());
        let t = choose|t: int| 0 <= t < prev.len() && prev[t] == b.drop_last()[k];
        assert(changed_after(m, b)[t] == b[k]);
    }
}

/// A path no batch entry carries is mapped as before.
proof fn lemma_store_after_other(m: Map<Seq<u8>, Seq<u8>>, b: Seq<FileView>, p: Seq<u8>)
    requires
        forall|j: int| 0 <= j < b.len() ==> b[j].path != p,
    ensures
        store_after(m, b).contains_key(p) == m.contains_key(p),
        m.contains_key(p) ==> store_after(m, b)[p] == m[p],
    decreases b.len(),
{
    if b.len() > 0 {
        assert(forall|j: int| 0 <= j < b.drop_last().len() ==> b.drop_last()[j].path != p);
        lemma_store_after_other(m, b.drop_last(), p);
    }
}

/// Every batch entry is committed: after the upsert the store holds each
/// batch path, with the digest of its last occurrence in the batch.  With
/// the ensures of `create_many` this is the all-or-nothing reading of a
/// batch upsert — the final mapping never reflects half a batch.
pub proof fn lemma_upsert_commits_all(m: Map<Seq<u8>, Seq<u8>>, b: Seq<FileView>, k: int)
    requires
        0 <= k < b.len(),
        forall|j: int| k < j < b.len() ==> b[j].path != b[k].path,
    ensures
        store_after(m, b).contains_key(b[k].path),
        store_after(m, b)[b[k].path] == b[k].hash,
    decreases b.len(),
{
    if k == b.len() - 1 {
    } else {
        lemma_upsert_commits_all(m, b.drop_last(), k);
    }
}

} // verus!
