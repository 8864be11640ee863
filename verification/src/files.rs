use vstd::prelude::*;

use crate::digest::{sha256, sha256_of};
use crate::path::{paths_view, spec_extension, FilePath};
use crate::store::{CreateFileProps, FileView};

verus! {

/// One filesystem entry the scanner's traversal produced: its path and
/// whether it is a directory.  Everything that is not a directory is a
/// candidate file.
pub struct ScanEntry {
    pub path: FilePath,
    pub is_dir: bool,
}

/// The mathematical content of a scan entry.
pub struct ScanEntryView {
    pub path: Seq<u8>,
    pub is_dir: bool,
}

impl View for ScanEntry {
    type V = ScanEntryView;

    open spec fn view(&self) -> ScanEntryView {
        ScanEntryView { path: self.path@, is_dir: self.is_dir }
    }
}

/// The paths of the non-directory entries, in order.
pub open spec fn file_paths_of(es: Seq<ScanEntryView>) -> Seq<Seq<u8>>
    decreases es.len(),
{
    if es.len() == 0 {
        Seq::empty()
    } else {
        let prev = file_paths_of(es.drop_last());
        if es.last().is_dir {
            prev
        } else {
            prev.push(es.last().path)
        }
    }
}

/// Keeps the regular-file candidates of a traversal: every entry that is
/// not a directory, in traversal order.
pub fn collect_files(entries: &Vec<ScanEntry>) -> (r: Vec<FilePath>)
    ensures
        paths_view(r@) == file_paths_of(entries@.map_values(|e: ScanEntry| e@)),
{
    let ghost ev = entries@.map_values(|e: ScanEntry| e@);
    let mut out: Vec<FilePath> = Vec::new();
    let n = entries.len();
    let mut i: usize = 0;
    while i < n
        invariant
            i <= n,
            n == entries@.len(),
            ev == entries@.map_values(|e: ScanEntry| e@),
            paths_view(out@) == file_paths_of(ev.take(i as int)),
        decreases n - i,
    {
        proof {
            assert(ev.take(i + 1).drop_last() =~= ev.take(i as int));
            assert(ev.take(i + 1).last() == ev[i as int]);
        }
        if !entries[i].is_dir {
            out.push(entries[i].path.clone());
            proof {
                assert(paths_view(out@) =~= file_paths_of(ev.take(i + 1)));
            }
        }
        i += 1;
    }
    proof {
        assert(ev.take(n as int) =~= ev);
    }
    out
}

/// A file about to be hashed: its path, and its content bytes when it
/// still was a readable regular file at hashing time — `None` drops it
/// from the pass, the recovery for a file that vanished between discovery
/// and hashing.
pub struct HashInput {
    pub path: FilePath,
    pub bytes: Option<Vec<u8>>,
}

/// The mathematical content of a hash input.
pub struct HashInputView {
    pub path: Seq<u8>,
    pub bytes: Option<Seq<u8>>,
}

impl View for HashInput {
    type V = HashInputView;

    open spec fn view(&self) -> HashInputView {
        HashInputView {
            path: self.path@,
            bytes: match self.bytes {
                Some(b) => Some(b@),
                None => None,
            },
        }
    }
}

/// The digest rows of the readable inputs, in order: each readable file's
/// path with the SHA-256 digest of its bytes; unreadable inputs are
/// silently dropped.
pub open spec fn hashed_of(ins: Seq<HashInputView>) -> Seq<FileView>
    decreases ins.len(),
{
    if ins.len() == 0 {
        Seq::empty()
    } else {
        let prev = hashed_of(ins.drop_last());
        match ins.last().bytes {
            Some(b) => prev.push(FileView { path: ins.last().path, hash: sha256_of(b) }),
            None => prev,
        }
    }
}

/// Digests each readable file independently: one row per input that still
/// had readable bytes, carrying the SHA-256 digest of exactly those bytes.
pub fn hash_files(inputs: &Vec<HashInput>) -> (r: Vec<CreateFileProps>)
    ensures
        r@.map_values(|p: CreateFileProps| p@) == hashed_of(inputs@.map_values(|x: HashInput| x@)),
{
    let ghost iv = inputs@.map_values(|x: HashInput| x@);
    let mut out: Vec<CreateFileProps> = Vec::new();
    let n = inputs.len();
    let mut i: usize = 0;
    while i < n
        invariant
            i <= n,
            n == inputs@.len(),
            iv == inputs@.map_values(|x: HashInput| x@),
            out@.map_values(|p: CreateFileProps| p@) == hashed_of(iv.take(i as int)),
        decreases n - i,
    {
        proof {
            assert(iv.take(i + 1).drop_last() =~= iv.take(i as int));
            assert(iv.take(i + 1).last() == iv[i as int]);
        }
        match &inputs[i].bytes {
            Some(bytes) => {
                let digest = sha256(bytes.as_slice());
                out.push(CreateFileProps::new(inputs[i].path.clone(), digest));
                proof {
                    assert(out@.map_values(|p: CreateFileProps| p@)
                        =~= hashed_of(iv.take(i + 1)));
                }
            }
            None => {}
        }
        i += 1;
    }
    proof {
        assert(iv.take(n as int) =~= iv);
    }
    out
}

/// One debounced filesystem notification: the path it concerns and whether
/// that path still resolves to a regular file.
pub struct WatchEvent {
    pub path: FilePath,
    pub is_file: bool,
}

/// The mathematical content of a watch event.
pub struct WatchEventView {
    pub path: Seq<u8>,
    pub is_file: bool,
}

impl View for WatchEvent {
    type V = WatchEventView;

    open spec fn view(&self) -> WatchEventView {
        WatchEventView { path: self.path@, is_file: self.is_file }
    }
}

/// The paths of the events that still name a regular file, in order.
pub open spec fn event_file_paths(es: Seq<WatchEventView>) -> Seq<Seq<u8>>
    decreases es.len(),
{
    if es.len() == 0 {
        Seq::empty()
    } else {
        let prev = event_file_paths(es.drop_last());
        if es.last().is_file {
            prev.push(es.last().path)
        } else {
            prev
        }
    }
}

/// Turns one debounced event burst into the batch of paths worth
/// reindexing: deletions and directory events are dropped, not errors.
pub fn debounced_batch(events: &Vec<WatchEvent>) -> (r: Vec<FilePath>)
    ensures
        paths_view(r@)
            == event_file_paths(events@.map_values(|e: WatchEvent| e@)),
{
    let ghost ev = events@.map_values(|e: WatchEvent| e@);
    let mut out: Vec<FilePath> = Vec::new();
    let n = events.len();
    let mut i: usize = 0;
    while i < n
        invariant
            i <= n,
            n == events@.len(),
            ev == events@.map_values(|e: WatchEvent| e@),
            paths_view(out@) == event_file_paths(ev.take(i as int)),
        decreases n - i,
    {
        proof {
            assert(ev.take(i + 1).drop_last() =~= ev.take(i as int));
            assert(ev.take(i + 1).last() == ev[i as int]);
        }
        if events[i].is_file {
            out.push(events[i].path.clone());
            proof {
                assert(paths_view(out@) =~= event_file_paths(ev.take(i + 1)));
            }
        }
        i += 1;
    }
    proof {
        assert(ev.take(n as int) =~= ev);
    }
    out
}

/// Whether the path's extension is one of `exts`.
pub open spec fn matches_any_extension(p: Seq<u8>, exts: Seq<Seq<u8>>) -> bool {
    exists|k: int| 0 <= k < exts.len() && spec_extension(p) == Some(exts[k])
}

/// The views of a sequence of extension byte strings.
pub open spec fn exts_view(v: Seq<Vec<u8>>) -> Seq<Seq<u8>> {
    v.map_values(|e: Vec<u8>| e@)
}

/// The paths whose extension is one of `exts`, in order.
pub open spec fn wanted_paths(ps: Seq<Seq<u8>>, exts: Seq<Seq<u8>>) -> Seq<Seq<u8>>
    decreases ps.len(),
{
    if ps.len() == 0 {
        Seq::empty()
    } else {
        let prev = wanted_paths(ps.drop_last(), exts);
        if matches_any_extension(ps.last(), exts) {
            prev.push(ps.last())
        } else {
            prev
        }
    }
}

/// Keeps exactly the paths whose extension is one of the wanted ones, in
/// order.
pub fn filter_by_extensions(paths: &Vec<FilePath>, exts: &Vec<Vec<u8>>) -> (r: Vec<FilePath>)
    ensures
        paths_view(r@) == wanted_paths(paths_view(paths@), exts_view(exts@)),
{
    let ghost pv = paths_view(paths@);
    let ghost ev = exts_view(exts@);
    let mut out: Vec<FilePath> = Vec::new();
    let n = paths.len();
    let mut i: usize = 0;
    while i < n
        invariant
            i <= n,
            n == paths@.len(),
            pv == paths_view(paths@),
            ev == exts_view(exts@),
            paths_view(out@) == wanted_paths(pv.take(i as int), ev),
        decreases n - i,
    {
        proof {
            assert(pv.take(i + 1).drop_last() =~= pv.take(i as int));
            assert(pv.take(i + 1).last() == pv[i as int]);
        }
        if has_any_extension(&paths[i], exts) {
            out.push(paths[i].clone());
            proof {
                assert(paths_view(out@) =~= wanted_paths(pv.take(i + 1), ev));
            }
        }
        i += 1;
    }
    proof {
        assert(pv.take(n as int) =~= pv);
    }
    out
}

fn has_any_extension(p: &FilePath, exts: &Vec<Vec<u8>>) -> (r: bool)
    ensures
        r == matches_any_extension(p@, exts_view(exts@)),
{
    let n = exts.len();
    let mut i: usize = 0;
    while i < n
        invariant
            i <= n,
            n == exts@.len(),
            forall|k: int| 0 <= k < i ==> spec_extension(p@) != Some(exts_view(exts@)[k]),
        decreases n - i,
    {
        if p.has_extension(exts[i].as_slice()) {
            proof {
                assert(exts_view(exts@)[i as int] == exts@[i as int]@);
            }
            return true;
        }
        i += 1;
    }
    false
}

} // verus!
