use vstd::prelude::*;

verus! {

/// A filesystem path as the platform hands it over: a plain byte sequence,
/// not assumed to be valid text.  The surrounding application converts
/// between this and its platform path type at the boundary.
#[derive(Debug)]
pub struct FilePath(pub Vec<u8>);

impl View for FilePath {
    type V = Seq<u8>;

    open spec fn view(&self) -> Seq<u8> {
        self.0@
    }
}

impl Clone for FilePath {
    fn clone(&self) -> (r: Self)
        ensures
            r@ == self@,
    {
        FilePath(self.0.clone())
    }
}

impl FilePath {
    pub fn new(buf: Vec<u8>) -> (r: Self)
        ensures
            r@ == buf@,
    {
        FilePath(buf)
    }

    /// Byte-for-byte equality of two paths.
    pub fn is_same(&self, other: &FilePath) -> (r: bool)
        ensures
            r == (self@ == other@),
    {
        let r = self.0 == other.0;
        proof {
            if self.0@.len() == other.0@.len()
                && (forall|i: int| 0 <= i < self.0@.len() ==> self.0@[i] == other.0@[i]) {
                assert(self.0@ =~= other.0@);
            }
        }
        r
    }

    /// Appends one path component, inserting a separator byte unless the
    /// base already ends with one, as the platform's path join does for
    /// ordinary relative components.
    pub fn join(&self, component: &[u8]) -> (r: FilePath)
        requires
            self@.len() + component@.len() + 1 <= usize::MAX,
        ensures
            r@ == spec_join(self@, component@),
    {
        let mut out: Vec<u8> = Vec::new();
        let n = self.0.len();
        let mut i: usize = 0;
        while i < n
            invariant
                n == self.0@.len(),
                i <= n,
                out@ == self.0@.take(i as int),
            decreases n - i,
        {
            out.push(self.0[i]);
            i += 1;
        }
        proof {
            assert(out@ =~= self.0@);
        }
        if n == 0 || self.0[n - 1] != 47u8 {
            out.push(47u8);
        }
        let m = component.len();
        let ghost mid = out@;
        let mut j: usize = 0;
        while j < m
            invariant
                m == component@.len(),
                j <= m,
                out@ == mid + component@.take(j as int),
            decreases m - j,
        {
            out.push(component[j]);
            j += 1;
        }
        proof {
            assert(out@ =~= spec_join(self@, component@));
        }
        FilePath(out)
    }
}

/// The views of a sequence of paths.
pub open spec fn paths_view(v: Seq<FilePath>) -> Seq<Seq<u8>> {
    v.map_values(|p: FilePath| p@)
}

/// The byte sequence of `base` joined with `component`: a `/` is inserted
/// unless `base` is empty or already ends with one.
pub open spec fn spec_join(base: Seq<u8>, component: Seq<u8>) -> Seq<u8> {
    if base.len() == 0 || base.last() != 47u8 {
        base + seq![47u8] + component
    } else {
        base + component
    }
}

/// The extension of a path: the bytes after the last `.` of its final
/// component, provided that dot is neither the component's first byte nor
/// its last.  Mirrors the usual platform rule that `.profile` has no
/// extension and `notes.md` has extension `md`.
pub open spec fn spec_extension(p: Seq<u8>) -> Option<Seq<u8>> {
    let name = p.subrange(last_sep_end(p), p.len() as int);
    if exists|i: int| 1 <= i < name.len() && name[i] == 46u8 {
        let d = last_dot(name);
        if d < name.len() - 1 {
            Some(name.subrange(d + 1, name.len() as int))
        } else {
            None
        }
    } else {
        None
    }
}

/// One past the position of the last `/` in `p`, or `0` when there is none:
/// where the final path component begins.
pub open spec fn last_sep_end(p: Seq<u8>) -> int
    decreases p.len(),
{
    if p.len() == 0 {
        0
    } else if p.last() == 47u8 {
        p.len() as int
    } else {
        last_sep_end(p.drop_last())
    }
}

/// The position of the last `.` at index `>= 1` in `name`.
pub open spec fn last_dot(name: Seq<u8>) -> int
    recommends
        exists|i: int| 1 <= i < name.len() && name[i] == 46u8,
    decreases name.len(),
{
    if name.len() <= 1 {
        0
    } else if name.last() == 46u8 {
        name.len() - 1
    } else {
        last_dot(name.drop_last())
    }
}

impl FilePath {
    /// Whether the path's extension equals `ext`, byte for byte.
    pub fn has_extension(&self, ext: &[u8]) -> (r: bool)
        ensures
            r == (spec_extension(self@) matches Some(e) && e == ext@),
    {
        let n = self.0.len();
        // Find where the final component begins.
        let mut start: usize = n;
        while start > 0 && self.0[start - 1] != 47u8
            invariant
                start <= n,
                n == self.0@.len(),
                forall|k: int| start <= k < n ==> self.0@[k] != 47u8,
            decreases start,
        {
            start -= 1;
        }
        proof {
            lemma_last_sep_end(self.0@, start as int);
        }
        // Find the last dot strictly inside the component.
        let mut dot: usize = n;
        let mut k: usize = n;
        while k > 0 && k - 1 > start
            invariant
                start <= n,
                k <= n,
                k >= start || k == n,
                n == self.0@.len(),
                dot == n || (start < dot < n && self.0@[dot as int] == 46u8),
                dot < n ==> forall|j: int| dot < j < n ==> self.0@[j] != 46u8,
                dot == n ==> forall|j: int| k <= j < n ==> self.0@[j] != 46u8,
            decreases k,
        {
            k -= 1;
            if self.0[k] == 46u8 && dot == n {
                dot = k;
            }
        }
        let ghost name = self.0@.subrange(last_sep_end(self.0@), n as int);
        if dot == n || dot + 1 == n {
            proof {
                if dot == n {
                    assert forall|i: int| 1 <= i < name.len() implies name[i] != 46u8 by {
                        assert(name[i] == self.0@[start + i]);
                    }
                } else {
                    lemma_last_dot(name, (dot - start) as int);
                }
            }
            return false;
        }
        proof {
            assert(name[(dot - start) as int] == 46u8);
            lemma_last_dot(name, (dot - start) as int);
        }
        // Compare the bytes after the dot with ext.
        let ghost e = name.subrange(dot - start + 1, name.len() as int);
        let elen = n - dot - 1;
        proof {
            assert(e.len() == elen);
            assert(forall|j: int| 0 <= j < elen ==> e[j] == self.0@[dot + 1 + j]);
        }
        if elen != ext.len() {
            return false;
        }
        let mut same = true;
        let mut i: usize = 0;
        while i < elen
            invariant
                i <= elen,
                n == self.0@.len(),
                start < dot,
                dot + 1 + elen == n,
                elen == ext@.len(),
                same == (forall|j: int| 0 <= j < i ==> self.0@[dot + 1 + j] == ext@[j]),
            decreases elen - i,
        {
            if self.0[dot + 1 + i] != ext[i] {
                same = false;
            }
            i += 1;
        }
        proof {
            if same {
                assert(e =~= ext@);
            } else {
                let j = choose|j: int| 0 <= j < elen && self.0@[dot + 1 + j] != ext@[j];
                assert(e[j] != ext@[j]);
            }
        }
        same
    }
}

/// When every byte at or past `start` is not `/`, and the byte before
/// `start` (when there is one) is `/`, the final component begins at `start`.
proof fn lemma_last_sep_end(p: Seq<u8>, start: int)
    requires
        0 <= start <= p.len(),
        forall|k: int| start <= k < p.len() ==> p[k] != 47u8,
        start > 0 ==> p[start - 1] == 47u8,
    ensures
        last_sep_end(p) == start,
    decreases p.len(),
{
    if p.len() == 0 {
    } else if p.last() == 47u8 {
        assert(start == p.len());
    } else {
        assert(start < p.len());
        lemma_last_sep_end(p.drop_last(), start);
    }
}

/// When `d` is a dot position with no dot after it, `last_dot` finds `d`.
proof fn lemma_last_dot(name: Seq<u8>, d: int)
    requires
        1 <= d < name.len(),
        name[d] == 46u8,
        forall|j: int| d < j < name.len() ==> name[j] != 46u8,
    ensures
        last_dot(name) == d,
    decreases name.len(),
{
    if d == name.len() - 1 {
    } else {
        assert(name.last() != 46u8);
        lemma_last_dot(name.drop_last(), d);
        assert(name.drop_last()[d] == name[d]);
    }
}

} // verus!
