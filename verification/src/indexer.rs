use vstd::prelude::*;

use crate::batcher::{lookup_of, EmbedView, EmbeddedText};
use crate::digest::sha256_of;
use crate::embed_store::{
    selected, CreateFileEmbeddingProps, EmbRowView, EmbeddingStore, FileEmbedding,
};
use crate::files::{hash_files, hashed_of, HashInput};
use crate::fragment::{fragments_of, parse_lines, Frag};
use crate::path::FilePath;
use crate::store::{
    changed_after, lemma_idempotent_upsert, map_of, store_after, ChangeStore, File, FileView,
};

verus! {

/// One fragment text waiting to be embedded, with the file it came from.
pub struct EmbeddingRequest {
    pub path: FilePath,
    pub text: String,
}

/// The mathematical content of an embedding request.
pub struct ReqView {
    pub path: Seq<u8>,
    pub text: Seq<char>,
}

impl View for EmbeddingRequest {
    type V = ReqView;

    open spec fn view(&self) -> ReqView {
        ReqView { path: self.path@, text: self.text@ }
    }
}

/// The views of a sequence of requests.
pub open spec fn reqs_view(v: Seq<EmbeddingRequest>) -> Seq<ReqView> {
    v.map_values(|x: EmbeddingRequest| x@)
}

/// The text of a fragment, whichever kind it is.
pub open spec fn frag_text(f: Frag) -> Seq<char> {
    match f {
        Frag::Heading(t) => t,
        Frag::Paragraph(t) => t,
    }
}

/// The requests one fragment sequence produces: one per fragment, in order,
/// all charged to the same path.
pub open spec fn reqs_of_frags(fs: Seq<Frag>, path: Seq<u8>) -> Seq<ReqView> {
    fs.map_values(|f: Frag| ReqView { path: path, text: frag_text(f) })
}

/// A file whose fragments are wanted: its path, and its lines when it was
/// readable as text — `None` skips the file for this pass without failing
/// the pass.
pub struct ParsedFile {
    pub path: FilePath,
    pub lines: Option<Vec<String>>,
}

/// The mathematical content of a parsed file.
pub struct ParsedFileView {
    pub path: Seq<u8>,
    pub lines: Option<Seq<Seq<char>>>,
}

impl View for ParsedFile {
    type V = ParsedFileView;

    open spec fn view(&self) -> ParsedFileView {
        ParsedFileView {
            path: self.path@,
            lines: match self.lines {
                Some(ls) => Some(ls@.map_values(|l: String| l@)),
                None => None,
            },
        }
    }
}

/// The requests one parsed file produces: its fragments' texts, or nothing
/// when the file was unreadable.
pub open spec fn file_requests(p: ParsedFileView, m: char) -> Seq<ReqView> {
    match p.lines {
        Some(ls) => reqs_of_frags(fragments_of(ls, m), p.path),
        None => Seq::empty(),
    }
}

/// All requests of a pass, file by file, in order.
pub open spec fn all_requests(ps: Seq<ParsedFileView>, m: char) -> Seq<ReqView>
    decreases ps.len(),
{
    if ps.len() == 0 {
        Seq::empty()
    } else {
        all_requests(ps.drop_last(), m) + file_requests(ps.last(), m)
    }
}

/// The position of the first request in `acc` carrying text `t`, or
/// `acc.len()` when none does.
pub open spec fn text_index(acc: Seq<ReqView>, t: Seq<char>) -> int
    decreases acc.len(),
{
    if acc.len() == 0 {
        0
    } else if acc.first().text == t {
        0
    } else {
        1 + text_index(acc.drop_first(), t)
    }
}

/// Adds one request to a text-deduplicated accumulation: a repeated text
/// replaces the earlier request for it — the last file mentioning a text
/// owns it — and a new text goes to the end.
pub open spec fn insert_req(acc: Seq<ReqView>, r: ReqView) -> Seq<ReqView> {
    let j = text_index(acc, r.text);
    if j < acc.len() {
        acc.update(j, r)
    } else {
        acc.push(r)
    }
}

/// The requests of a pass deduplicated by text, in first-appearance order.
pub open spec fn dedup_reqs(s: Seq<ReqView>) -> Seq<ReqView>
    decreases s.len(),
{
    if s.len() == 0 {
        Seq::empty()
    } else {
        insert_req(dedup_reqs(s.drop_last()), s.last())
    }
}

/// `text_index` lands on the first entry carrying `t`, or past the end.
proof fn lemma_text_index_spec(acc: Seq<ReqView>, t: Seq<char>)
    ensures
        0 <= text_index(acc, t) <= acc.len(),
        text_index(acc, t) < acc.len() ==> acc[text_index(acc, t)].text == t,
        forall|k: int| 0 <= k < text_index(acc, t) ==> acc[k].text != t,
    decreases acc.len(),
{
    if acc.len() == 0 {
    } else if acc.first().text == t {
    } else {
        lemma_text_index_spec(acc.drop_first(), t);
        assert forall|k: int| 0 <= k < text_index(acc, t) implies acc[k].text != t by {
            if k > 0 {
                assert(acc.drop_first()[k - 1] == acc[k]);
            }
        }
    }
}

/// A deduplicated request batch carries each text at most once: the
/// embedding cost of a pass scales with the number of unique fragment
/// texts, not with the total fragment count.
pub proof fn lemma_collected_texts_distinct(s: Seq<ReqView>)
    ensures
        forall|i: int, j: int| 0 <= i < j < dedup_reqs(s).len()
            ==> dedup_reqs(s)[i].text != dedup_reqs(s)[j].text,
    decreases s.len(),
{
    if s.len() > 0 {
        lemma_collected_texts_distinct(s.drop_last());
        let prev = dedup_reqs(s.drop_last());
        let r = s.last();
        lemma_text_index_spec(prev, r.text);
        let ti = text_index(prev, r.text);
        let d = dedup_reqs(s);
        if ti < prev.len() {
            assert(prev[ti].text == r.text);
            assert forall|i: int, j: int| 0 <= i < j < d.len() implies d[i].text
                != d[j].text by {
                assert(d[i] == if i == ti { r } else { prev[i] });
                assert(d[j] == if j == ti { r } else { prev[j] });
            }
        } else {
            assert forall|i: int, j: int| 0 <= i < j < d.len() implies d[i].text
                != d[j].text by {
                if j == d.len() - 1 {
                    assert(d[i] == prev[i]);
                    assert(prev[i].text != r.text);
                } else {
                    assert(d[i] == prev[i]);
                    assert(d[j] == prev[j]);
                }
            }
        }
    }
}

/// When the first `j` entries carry other texts, and entry `j` (if there
/// is one) carries `t`, the first index for `t` is `j`.
proof fn lemma_text_index(acc: Seq<ReqView>, t: Seq<char>, j: int)
    requires
        0 <= j <= acc.len(),
        forall|k: int| 0 <= k < j ==> acc[k].text != t,
        j < acc.len() ==> acc[j].text == t,
    ensures
        text_index(acc, t) == j,
    decreases acc.len(),
{
    if acc.len() == 0 {
    } else if j == 0 {
    } else {
        assert(acc[0].text != t);
        let rest = acc.drop_first();
        assert(forall|k: int| 0 <= k < j - 1 ==> rest[k].text != t);
        lemma_text_index(rest, t, j - 1);
    }
}

/// Collects, in order, one request per fragment of each readable file.
fn collect_all_requests(parsed: &Vec<ParsedFile>, marker: char) -> (r: Vec<EmbeddingRequest>)
    ensures
        reqs_view(r@)
            == all_requests(parsed@.map_values(|p: ParsedFile| p@), marker),
{
    let ghost pv = parsed@.map_values(|p: ParsedFile| p@);
    let mut out: Vec<EmbeddingRequest> = Vec::new();
    let n = parsed.len();
    let mut i: usize = 0;
    while i < n
        invariant
            i <= n,
            n == parsed@.len(),
            pv == parsed@.map_values(|p: ParsedFile| p@),
            reqs_view(out@) == all_requests(pv.take(i as int), marker),
        decreases n - i,
    {
        proof {
            assert(pv.take(i + 1).drop_last() =~= pv.take(i as int));
            assert(pv.take(i + 1).last() == pv[i as int]);
        }
        match &parsed[i].lines {
            Some(lines) => {
                let frags = parse_lines(lines, marker);
                let ghost fv = frags@.map_values(|f: crate::fragment::FileFragment| f@);
                let ghost base = reqs_view(out@);
                let m = frags.len();
                let mut j: usize = 0;
                while j < m
                    invariant
                        j <= m,
                        m == frags@.len(),
                        fv == frags@.map_values(|f: crate::fragment::FileFragment| f@),
                        i < n,
                        n == parsed@.len(),
                        pv == parsed@.map_values(|p: ParsedFile| p@),
                        base == all_requests(pv.take(i as int), marker),
                        reqs_view(out@)
                            == base + reqs_of_frags(fv.take(j as int), pv[i as int].path),
                    decreases m - j,
                {
                    let text = match &frags[j] {
                        crate::fragment::FileFragment::Heading(s) => s.clone(),
                        crate::fragment::FileFragment::Paragraph(s) => s.clone(),
                    };
                    proof {
                        assert(text@ == frag_text(fv[j as int]));
                    }
                    let ghost beforev = reqs_view(out@);
                    let req = EmbeddingRequest { path: parsed[i].path.clone(), text };
                    proof {
                        assert(req@ == ReqView {
                            path: pv[i as int].path,
                            text: frag_text(fv[j as int]),
                        });
                    }
                    out.push(req);
                    proof {
                        assert(fv.take(j + 1).drop_last() =~= fv.take(j as int));
                        assert(fv.take(j + 1).last() == fv[j as int]);
                        assert(reqs_of_frags(fv.take(j + 1), pv[i as int].path)
                            =~= reqs_of_frags(fv.take(j as int), pv[i as int].path)
                                .push(ReqView {
                                    path: pv[i as int].path,
                                    text: frag_text(fv[j as int]),
                                }));
                        assert(reqs_view(out@) =~= beforev.push(ReqView {
                            path: pv[i as int].path,
                            text: frag_text(fv[j as int]),
                        }));
                        assert(reqs_view(out@)
                            =~= base + reqs_of_frags(fv.take(j + 1), pv[i as int].path));
                    }
                    j += 1;
                }
                proof {
                    assert(fv.take(m as int) =~= fv);
                    assert(reqs_of_frags(fv, pv[i as int].path)
                        =~= file_requests(pv[i as int], marker));
                    assert(reqs_view(out@)
                        =~= all_requests(pv.take(i + 1), marker));
                }
            }
            None => {
                proof {
                    assert(reqs_view(out@)
                        =~= all_requests(pv.take(i + 1), marker));
                }
            }
        }
        i += 1;
    }
    proof {
        assert(pv.take(n as int) =~= pv);
    }
    out
}

fn find_req_text(v: &Vec<EmbeddingRequest>, t: &String) -> (r: Option<usize>)
    ensures
        match r {
            Some(j) => j < v@.len()
                && reqs_view(v@)[j as int].text == t@
                && forall|k: int| 0 <= k < j
                    ==> reqs_view(v@)[k].text != t@,
            None => forall|k: int| 0 <= k < v@.len()
                ==> reqs_view(v@)[k].text != t@,
        },
{
    let n = v.len();
    let mut i: usize = 0;
    while i < n
        invariant
            i <= n,
            n == v@.len(),
            forall|k: int| 0 <= k < i
                ==> reqs_view(v@)[k].text != t@,
        decreases n - i,
    {
        if v[i].text == *t {
            proof {
                assert(reqs_view(v@)[i as int].text == t@);
            }
            return Some(i);
        }
        i += 1;
    }
    None
}

/// Deduplicates requests by text: each text once, in first-appearance
/// order, charged to the last file that produced it.
fn dedup_requests(reqs: Vec<EmbeddingRequest>) -> (r: Vec<EmbeddingRequest>)
    ensures
        reqs_view(r@)
            == dedup_reqs(reqs_view(reqs@)),
{
    let ghost rv = reqs_view(reqs@);
    let mut out: Vec<EmbeddingRequest> = Vec::new();
    let n = reqs.len();
    let mut i: usize = 0;
    while i < n
        invariant
            i <= n,
            n == reqs@.len(),
            rv == reqs_view(reqs@),
            reqs_view(out@) == dedup_reqs(rv.take(i as int)),
        decreases n - i,
    {
        proof {
            assert(rv.take(i + 1).drop_last() =~= rv.take(i as int));
            assert(rv.take(i + 1).last() == rv[i as int]);
        }
        let req = EmbeddingRequest { path: reqs[i].path.clone(), text: reqs[i].text.clone() };
        let ghost outv = reqs_view(out@);
        match find_req_text(&out, &reqs[i].text) {
            Some(j) => {
                proof {
                    lemma_text_index(outv, rv[i as int].text, j as int);
                }
                out.set(j, req);
                proof {
                    assert(reqs_view(out@)
                        =~= outv.update(j as int, rv[i as int]));
                    assert(reqs_view(out@)
                        =~= dedup_reqs(rv.take(i + 1)));
                }
            }
            None => {
                proof {
                    lemma_text_index(outv, rv[i as int].text, outv.len() as int);
                }
                out.push(req);
                proof {
                    assert(reqs_view(out@)
                        =~= outv.push(rv[i as int]));
                    assert(reqs_view(out@)
                        =~= dedup_reqs(rv.take(i + 1)));
                }
            }
        }
        i += 1;
    }
    proof {
        assert(rv.take(n as int) =~= rv);
    }
    out
}

/// The embedding rows a pass writes: one per request whose text the
/// embedding results cover, carrying that text's vector.
pub open spec fn rows_of(reqs: Seq<ReqView>, results: Seq<EmbedView>) -> Seq<EmbRowView>
    decreases reqs.len(),
{
    if reqs.len() == 0 {
        Seq::empty()
    } else {
        let prev = rows_of(reqs.drop_last(), results);
        match lookup_of(results, reqs.last().text) {
            Some(v) => prev.push(EmbRowView {
                path: reqs.last().path,
                vector: v,
                contents: reqs.last().text,
            }),
            None => prev,
        }
    }
}

/// Joins each request with the vector its text received; a request whose
/// text the results do not cover is dropped from the pass.
fn build_rows(requests: &Vec<EmbeddingRequest>, results: &Vec<EmbeddedText>) -> (r: Vec<
    CreateFileEmbeddingProps,
>)
    ensures
        r@.map_values(|p: CreateFileEmbeddingProps| p@) == rows_of(
            reqs_view(requests@),
            results@.map_values(|e: EmbeddedText| e@),
        ),
{
    let ghost qv = reqs_view(requests@);
    let ghost ev = results@.map_values(|e: EmbeddedText| e@);
    let mut out: Vec<CreateFileEmbeddingProps> = Vec::new();
    let n = requests.len();
    let mut i: usize = 0;
    while i < n
        invariant
            i <= n,
            n == requests@.len(),
            qv == reqs_view(requests@),
            ev == results@.map_values(|e: EmbeddedText| e@),
            out@.map_values(|p: CreateFileEmbeddingProps| p@) == rows_of(qv.take(i as int), ev),
        decreases n - i,
    {
        proof {
            assert(qv.take(i + 1).drop_last() =~= qv.take(i as int));
            assert(qv.take(i + 1).last() == qv[i as int]);
        }
        match crate::batcher::lookup_embedding(results, &requests[i].text) {
            Some(vector) => {
                out.push(CreateFileEmbeddingProps::new(
                    requests[i].path.clone(),
                    vector.clone(),
                    requests[i].text.clone(),
                ));
                proof {
                    assert(out@.map_values(|p: CreateFileEmbeddingProps| p@)
                        =~= rows_of(qv.take(i + 1), ev));
                }
            }
            None => {
                proof {
                    assert(out@.map_values(|p: CreateFileEmbeddingProps| p@)
                        =~= rows_of(qv.take(i + 1), ev));
                }
            }
        }
        i += 1;
    }
    proof {
        assert(qv.take(n as int) =~= qv);
    }
    out
}

/// The indexing pipeline's state: the change store that gates downstream
/// work, the embedding store the pipeline feeds, the heading marker the
/// fragmenter uses, and the batch bound for embedding calls.  The
/// embedding collaborator itself is outside: the surrounding application
/// runs it between `plan_index_pass` and `complete_index_pass`.
///
/// Every pass takes the service by exclusive reference, so a full pass and
/// a watch-triggered pass over the same root are serialized by
/// construction — concurrent passes over one root cannot interleave.
pub struct IndexerService {
    changes: ChangeStore,
    embeddings: EmbeddingStore,
    marker: char,
    max_batch: usize,
}

impl IndexerService {
    /// The change store's mapping.
    pub closed spec fn change_map(&self) -> Map<Seq<u8>, Seq<u8>> {
        self.changes@
    }

    /// The embedding store's rows.
    pub closed spec fn rows(&self) -> Seq<EmbRowView> {
        self.embeddings@
    }

    /// The heading marker in use.
    pub closed spec fn marker_spec(&self) -> char {
        self.marker
    }

    /// The embedding batch bound in use.
    pub closed spec fn max_batch_spec(&self) -> int {
        self.max_batch as int
    }

    /// The change store is well formed and batches are nonempty.
    pub closed spec fn wf(&self) -> bool {
        self.changes.wf() && self.max_batch >= 1
    }

    /// A fresh pipeline over empty stores.
    pub fn try_new(marker: char, max_batch: usize) -> (r: Self)
        requires
            max_batch >= 1,
        ensures
            r.wf(),
            r.change_map() == Map::<Seq<u8>, Seq<u8>>::empty(),
            r.rows() == Seq::<EmbRowView>::empty(),
            r.marker_spec() == marker,
            r.max_batch_spec() == max_batch,
    {
        IndexerService {
            changes: ChangeStore::new(),
            embeddings: EmbeddingStore::new(),
            marker,
            max_batch,
        }
    }

    /// The rows of the change store, for the application to persist.
    pub fn change_records(&self) -> (r: &Vec<File>)
        requires
            self.wf(),
        ensures
            map_of(r@) == self.change_map(),
    {
        self.changes.records()
    }

    /// The rows of the embedding store, for the application to persist.
    pub fn embedding_rows(&self) -> (r: &Vec<FileEmbedding>)
        ensures
            r@.map_values(|x: FileEmbedding| x@) == self.rows(),
    {
        self.embeddings.rows()
    }

    /// Restores the change store from previously persisted rows: each row
    /// is applied in order, later rows overriding earlier ones with the
    /// same path.
    pub fn seed_change_store(&mut self, rows: Vec<crate::store::CreateFileProps>)
        requires
            old(self).wf(),
        ensures
            final(self).wf(),
            final(self).change_map() == store_after(
                old(self).change_map(),
                rows@.map_values(|p: crate::store::CreateFileProps| p@),
            ),
            final(self).rows() == old(self).rows(),
            final(self).marker_spec() == old(self).marker_spec(),
            final(self).max_batch_spec() == old(self).max_batch_spec(),
    {
        let _ = self.changes.create_many(rows);
    }

    /// The first half of an index pass: digests every readable input and
    /// applies the batch to the change store, reporting exactly the rows
    /// that changed.  Only those files go on to fragmentation and
    /// embedding; an unchanged tree reports nothing.
    pub fn plan_index_pass(&mut self, inputs: &Vec<HashInput>) -> (changed: Vec<File>)
        requires
            old(self).wf(),
        ensures
            final(self).wf(),
            final(self).change_map() == store_after(
                old(self).change_map(),
                hashed_of(inputs@.map_values(|x: HashInput| x@)),
            ),
            changed@.map_values(|f: File| f@) == changed_after(
                old(self).change_map(),
                hashed_of(inputs@.map_values(|x: HashInput| x@)),
            ),
            final(self).rows() == old(self).rows(),
            final(self).marker_spec() == old(self).marker_spec(),
            final(self).max_batch_spec() == old(self).max_batch_spec(),
    {
        let props = hash_files(inputs);
        self.changes.create_many(props)
    }

    /// Fragmentation and request collection for the changed files: every
    /// fragment of every readable file becomes a request, and requests are
    /// deduplicated by text, so embedding cost scales with unique texts.
    pub fn collect_fragment_texts(&self, parsed: &Vec<ParsedFile>) -> (r: Vec<EmbeddingRequest>)
        ensures
            reqs_view(r@) == dedup_reqs(all_requests(
                parsed@.map_values(|p: ParsedFile| p@),
                self.marker_spec(),
            )),
    {
        let all = collect_all_requests(parsed, self.marker);
        dedup_requests(all)
    }

    /// The second half of an index pass: joins the embedding results back
    /// to the collected requests by text and bulk-appends the resulting
    /// rows.  A request whose text has no result is dropped; nothing else
    /// changes.
    pub fn complete_index_pass(
        &mut self,
        requests: &Vec<EmbeddingRequest>,
        results: &Vec<EmbeddedText>,
    )
        requires
            old(self).wf(),
        ensures
            final(self).wf(),
            final(self).rows() == old(self).rows() + rows_of(
                reqs_view(requests@),
                results@.map_values(|e: EmbeddedText| e@),
            ),
            final(self).change_map() == old(self).change_map(),
            final(self).marker_spec() == old(self).marker_spec(),
            final(self).max_batch_spec() == old(self).max_batch_spec(),
    {
        let rows = build_rows(requests, results);
        self.embeddings.create_many(rows);
    }

    /// Resolves an externally ranked search result against the embedding
    /// store: the first `k` ranked positions, joined to rows, in order.
    pub fn search_hits(&self, ranked: &Vec<usize>, k: usize) -> (r: Vec<FileEmbedding>)
        ensures
            r@.map_values(|x: FileEmbedding| x@) == selected(self.rows(), ranked@, k as int),
    {
        self.embeddings.search_hits(ranked, k)
    }
}

/// Every row a pass digests from an unchanged tree matches the store.
proof fn lemma_hashed_entries_match(m: Map<Seq<u8>, Seq<u8>>, ins: Seq<crate::files::HashInputView>)
    requires
        forall|i: int| 0 <= i < ins.len()
            ==> (#[trigger] ins[i].bytes matches Some(b)
                ==> m.contains_key(ins[i].path) && m[ins[i].path] == sha256_of(b)),
    ensures
        forall|k: int| 0 <= k < hashed_of(ins).len()
            ==> m.contains_key(#[trigger] hashed_of(ins)[k].path)
                && m[hashed_of(ins)[k].path] == hashed_of(ins)[k].hash,
    decreases ins.len(),
{
    if ins.len() > 0 {
        let rest = ins.drop_last();
        assert forall|i: int| 0 <= i < rest.len() implies (#[trigger] rest[i].bytes matches Some(b)
            ==> m.contains_key(rest[i].path) && m[rest[i].path] == sha256_of(b)) by {
            assert(rest[i] == ins[i]);
            assert(ins[i].bytes == rest[i].bytes);
        }
        lemma_hashed_entries_match(m, rest);
        let h = hashed_of(ins);
        let prev = hashed_of(rest);
        assert(ins[ins.len() - 1] == ins.last());
        assert(ins[ins.len() - 1].bytes == ins.last().bytes);
        match ins.last().bytes {
            Some(b) => {
                assert(m.contains_key(ins.last().path) && m[ins.last().path] == sha256_of(b));
                assert forall|k: int| 0 <= k < h.len() implies m.contains_key(
                    #[trigger] h[k].path,
                ) && m[h[k].path] == h[k].hash by {
                    if k < prev.len() {
                        assert(h[k] == prev[k]);
                    } else {
                        assert(h[k] == FileView { path: ins.last().path, hash: sha256_of(b) });
                    }
                }
            }
            None => {}
        }
    }
}

/// Idempotence of a full pass: when every readable file's digest equals
/// the digest the change store already holds for its path, the pass
/// changes the store not at all and reports no file as changed — so no
/// fragmentation happens and no embedding call is issued.
pub proof fn lemma_unchanged_tree_changes_nothing(
    m: Map<Seq<u8>, Seq<u8>>,
    ins: Seq<crate::files::HashInputView>,
)
    requires
        forall|i: int| 0 <= i < ins.len()
            ==> (#[trigger] ins[i].bytes matches Some(b)
                ==> m.contains_key(ins[i].path) && m[ins[i].path] == sha256_of(b)),
    ensures
        store_after(m, hashed_of(ins)) == m,
        changed_after(m, hashed_of(ins)).len() == 0,
{
    lemma_hashed_entries_match(m, ins);
    lemma_idempotent_upsert(m, hashed_of(ins));
}

/// No digest row carries a path that no input carries.
proof fn lemma_hashed_paths_other(ins: Seq<crate::files::HashInputView>, p: Seq<u8>)
    requires
        forall|i: int| 0 <= i < ins.len() ==> ins[i].path != p,
    ensures
        forall|t: int| 0 <= t < hashed_of(ins).len() ==> #[trigger] hashed_of(ins)[t].path != p,
    decreases ins.len(),
{
    if ins.len() > 0 {
        let rest = ins.drop_last();
        assert(forall|i: int| 0 <= i < rest.len() ==> #[trigger] rest[i].path == ins[i].path);
        lemma_hashed_paths_other(rest, p);
        assert(ins[ins.len() - 1].path == ins.last().path);
        let h = hashed_of(ins);
        let prev = hashed_of(rest);
        assert forall|t: int| 0 <= t < h.len() implies #[trigger] h[t].path != p by {
            match ins.last().bytes {
                Some(_) => {
                    if t < h.len() - 1 {
                        assert(h[t] == prev[t]);
                    } else {
                        assert(h[t].path == ins.last().path);
                    }
                }
                None => {
                    assert(h[t] == prev[t]);
                }
            }
        }
    }
}

/// The digest row of a readable input is in the hashed batch.
proof fn lemma_hashed_contains(ins: Seq<crate::files::HashInputView>, k: int, b: Seq<u8>)
    requires
        0 <= k < ins.len(),
        ins[k].bytes == Some(b),
    ensures
        exists|t: int| 0 <= t < hashed_of(ins).len()
            && hashed_of(ins)[t] == (FileView { path: ins[k].path, hash: sha256_of(b) }),
    decreases ins.len(),
{
    let h = hashed_of(ins);
    if k == ins.len() - 1 {
        assert(ins.last().bytes == Some(b));
        assert(h[h.len() - 1] == (FileView { path: ins[k].path, hash: sha256_of(b) }));
    } else {
        let rest = ins.drop_last();
        assert(rest[k] == ins[k]);
        lemma_hashed_contains(rest, k, b);
        let prev = hashed_of(rest);
        let t = choose|t: int| 0 <= t < prev.len()
            && prev[t] == (FileView { path: rest[k].path, hash: sha256_of(b) });
        assert(h[t] == prev[t]);
    }
}

/// When at most one input carries path `p`, at most one digest row does.
proof fn lemma_hashed_at_most_one(
    ins: Seq<crate::files::HashInputView>,
    p: Seq<u8>,
    t: int,
    t0: int,
)
    requires
        exists|k: int| 0 <= k < ins.len() && ins[k].path == p && (forall|j: int|
            0 <= j < ins.len() && j != k ==> ins[j].path != p),
        0 <= t < hashed_of(ins).len(),
        0 <= t0 < hashed_of(ins).len(),
        t != t0,
        hashed_of(ins)[t0].path == p,
    ensures
        hashed_of(ins)[t].path != p,
    decreases ins.len(),
{
    let k = choose|k: int| 0 <= k < ins.len() && ins[k].path == p && (forall|j: int|
        0 <= j < ins.len() && j != k ==> ins[j].path != p);
    let h = hashed_of(ins);
    let rest = ins.drop_last();
    let prev = hashed_of(rest);
    assert(forall|i: int| 0 <= i < rest.len() ==> #[trigger] rest[i].path == ins[i].path);
    if k == ins.len() - 1 {
        assert(forall|i: int| 0 <= i < rest.len() ==> rest[i].path != p);
        lemma_hashed_paths_other(rest, p);
        match ins.last().bytes {
            Some(_) => {
                // Only the final row can carry p, so t0 is it and t is earlier.
                if t0 < h.len() - 1 {
                    assert(h[t0] == prev[t0]);
                    assert(false);
                }
                assert(h[t] == prev[t]);
            }
            None => {
                assert(h[t0] == prev[t0]);
                assert(false);
            }
        }
    } else {
        assert(ins.last().path != p);
        assert(rest[k].path == p);
        assert(forall|j: int| 0 <= j < rest.len() && j != k ==> rest[j].path != p);
        match ins.last().bytes {
            Some(_) => {
                if t == h.len() - 1 {
                    assert(h[t].path == ins.last().path);
                } else {
                    if t0 == h.len() - 1 {
                        assert(h[t0].path == ins.last().path);
                        assert(false);
                    }
                    assert(h[t0] == prev[t0]);
                    lemma_hashed_at_most_one(rest, p, t, t0);
                    assert(h[t] == prev[t]);
                }
            }
            None => {
                lemma_hashed_at_most_one(rest, p, t, t0);
                assert(h[t] == prev[t]);
            }
        }
    }
}

/// Digest sensitivity, downstream half: a readable file whose digest
/// differs from the digest the change store holds for its path — in
/// particular one whose content bytes were modified in any way that moved
/// the digest, which is a function of those bytes alone — appears in the
/// pass's changed set, provided no other input carries its path.
pub proof fn lemma_modified_input_is_changed(
    m: Map<Seq<u8>, Seq<u8>>,
    ins: Seq<crate::files::HashInputView>,
    k: int,
    b: Seq<u8>,
)
    requires
        0 <= k < ins.len(),
        ins[k].bytes == Some(b),
        !m.contains_key(ins[k].path) || m[ins[k].path] != sha256_of(b),
        forall|j: int| 0 <= j < ins.len() && j != k ==> ins[j].path != ins[k].path,
    ensures
        exists|t: int| 0 <= t < changed_after(m, hashed_of(ins)).len()
            && changed_after(m, hashed_of(ins))[t]
                == (FileView { path: ins[k].path, hash: sha256_of(b) }),
{
    let h = hashed_of(ins);
    let e = FileView { path: ins[k].path, hash: sha256_of(b) };
    lemma_hashed_contains(ins, k, b);
    let t0 = choose|t: int| 0 <= t < h.len() && h[t] == e;
    assert forall|t: int| 0 <= t < h.len() && t != t0 implies h[t].path != e.path by {
        lemma_hashed_at_most_one(ins, ins[k].path, t, t0);
    }
    crate::store::lemma_modified_path_is_changed(m, h, t0);
}

/// With no changed files there is nothing to parse, and a pass over no
/// parsed files collects no requests and writes no rows.
pub proof fn lemma_no_changed_files_no_requests(marker: char, results: Seq<EmbedView>)
    ensures
        all_requests(Seq::<ParsedFileView>::empty(), marker).len() == 0,
        dedup_reqs(Seq::<ReqView>::empty()).len() == 0,
        rows_of(Seq::<ReqView>::empty(), results).len() == 0,
{
}

} // verus!
