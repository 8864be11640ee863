use vstd::prelude::*;

verus! {

/// The largest number of texts handed to the embedding collaborator in one
/// underlying call.
pub const DEFAULT_MAX_BATCH: usize = 256;

/// The views of a sequence of owned texts.
pub open spec fn texts_view(v: Seq<String>) -> Seq<Seq<char>> {
    v.map_values(|s: String| s@)
}

/// A text paired with the vector the embedding collaborator returned for
/// it.  The vector is carried as the opaque byte encoding the surrounding
/// application uses; this library never looks inside it.
pub struct EmbeddedText {
    pub text: String,
    pub vector: Vec<u8>,
}

/// The mathematical content of an `EmbeddedText`.
pub struct EmbedView {
    pub text: Seq<char>,
    pub vector: Seq<u8>,
}

impl View for EmbeddedText {
    type V = EmbedView;

    open spec fn view(&self) -> EmbedView {
        EmbedView { text: self.text@, vector: self.vector@ }
    }
}

/// A sequence with every repeated text dropped, keeping first occurrences
/// in order.
pub open spec fn dedup_texts(s: Seq<Seq<char>>) -> Seq<Seq<char>>
    decreases s.len(),
{
    if s.len() == 0 {
        Seq::empty()
    } else {
        let prev = dedup_texts(s.drop_last());
        if prev.contains(s.last()) {
            prev
        } else {
            prev.push(s.last())
        }
    }
}

/// Deduplication keeps exactly the distinct members, each once.
pub proof fn lemma_dedup_texts_distinct(s: Seq<Seq<char>>)
    ensures
        forall|i: int, j: int| 0 <= i < j < dedup_texts(s).len()
            ==> dedup_texts(s)[i] != dedup_texts(s)[j],
        forall|x: Seq<char>| dedup_texts(s).contains(x) <==> s.contains(x),
    decreases s.len(),
{
    if s.len() > 0 {
        lemma_dedup_texts_distinct(s.drop_last());
        let prev = dedup_texts(s.drop_last());
        let d = dedup_texts(s);
        assert forall|x: Seq<char>| d.contains(x) implies s.contains(x) by {
            if prev.contains(x) {
                assert(s.drop_last().contains(x));
                let i = choose|i: int| 0 <= i < s.drop_last().len() && s.drop_last()[i] == x;
                assert(s[i] == x);
            } else {
                assert(x == s.last());
                assert(s[s.len() - 1] == x);
            }
        }
        assert forall|x: Seq<char>| s.contains(x) implies d.contains(x) by {
            let i = choose|i: int| 0 <= i < s.len() && s[i] == x;
            if i < s.len() - 1 {
                assert(s.drop_last()[i] == x);
                assert(s.drop_last().contains(x));
                assert(prev.contains(x));
                if !prev.contains(s.last()) {
                    let j = choose|j: int| 0 <= j < prev.len() && prev[j] == x;
                    assert(d[j] == x);
                }
            } else {
                if prev.contains(s.last()) {
                    let j = choose|j: int| 0 <= j < prev.len() && prev[j] == x;
                    assert(d[j] == x);
                } else {
                    assert(d[d.len() - 1] == x);
                }
            }
        }
        if !prev.contains(s.last()) {
            assert forall|i: int, j: int| 0 <= i < j < d.len() implies d[i] != d[j] by {
                if j == d.len() - 1 {
                    assert(d[i] == prev[i]);
                    assert(!prev.contains(s.last()));
                    if prev[i] == s.last() {
                        assert(prev.contains(s.last()));
                    }
                }
            }
        }
    }
}

fn contains_text(v: &Vec<String>, t: &String) -> (r: bool)
    ensures
        r == texts_view(v@).contains(t@),
{
    let n = v.len();
    let mut i: usize = 0;
    while i < n
        invariant
            i <= n,
            n == v@.len(),
            forall|k: int| 0 <= k < i ==> texts_view(v@)[k] != t@,
        decreases n - i,
    {
        if v[i] == *t {
            assert(texts_view(v@)[i as int] == t@);
            return true;
        }
        i += 1;
    }
    false
}

/// The distinct texts of a request batch, first occurrences first: the
/// texts actually worth embedding, one underlying slot per unique text.
pub fn unique_texts(texts: &Vec<String>) -> (r: Vec<String>)
    ensures
        texts_view(r@) == dedup_texts(texts_view(texts@)),
{
    let ghost tv = texts_view(texts@);
    let mut out: Vec<String> = Vec::new();
    let n = texts.len();
    let mut i: usize = 0;
    while i < n
        invariant
            i <= n,
            n == texts@.len(),
            tv == texts_view(texts@),
            texts_view(out@) == dedup_texts(tv.take(i as int)),
        decreases n - i,
    {
        proof {
            assert(tv.take(i + 1).drop_last() =~= tv.take(i as int));
            assert(tv.take(i + 1).last() == tv[i as int]);
        }
        if !contains_text(&out, &texts[i]) {
            out.push(texts[i].clone());
            proof {
                assert(texts_view(out@) =~= dedup_texts(tv.take(i + 1)));
            }
        }
        i += 1;
    }
    proof {
        assert(tv.take(n as int) =~= tv);
    }
    out
}

/// The concatenation of a sequence of batches.
pub open spec fn concat_all(cs: Seq<Seq<Seq<char>>>) -> Seq<Seq<char>>
    decreases cs.len(),
{
    if cs.len() == 0 {
        Seq::empty()
    } else {
        concat_all(cs.drop_last()) + cs.last()
    }
}

/// Splits texts into batches of at most `max` for the underlying calls:
/// every batch is nonempty and no larger than `max`, and together, in
/// order, the batches are exactly the input.
pub fn chunk_texts(texts: &Vec<String>, max: usize) -> (r: Vec<Vec<String>>)
    requires
        max >= 1,
    ensures
        concat_all(r@.map_values(|c: Vec<String>| texts_view(c@))) == texts_view(texts@),
        forall|i: int| 0 <= i < r@.len() ==> 1 <= #[trigger] r@[i]@.len() <= max,
{
    let ghost tv = texts_view(texts@);
    let mut out: Vec<Vec<String>> = Vec::new();
    let mut cur: Vec<String> = Vec::new();
    let n = texts.len();
    let mut i: usize = 0;
    while i < n
        invariant
            i <= n,
            n == texts@.len(),
            max >= 1,
            tv == texts_view(texts@),
            cur@.len() < max,
            concat_all(out@.map_values(|c: Vec<String>| texts_view(c@))) + texts_view(cur@)
                == tv.take(i as int),
            forall|k: int| 0 <= k < out@.len() ==> 1 <= #[trigger] out@[k]@.len() <= max,
        decreases n - i,
    {
        cur.push(texts[i].clone());
        proof {
            assert(tv.take(i + 1) =~= tv.take(i as int).push(tv[i as int]));
            assert(concat_all(out@.map_values(|c: Vec<String>| texts_view(c@)))
                + texts_view(cur@) =~= tv.take(i + 1));
        }
        if cur.len() == max {
            let ghost oldcs = out@.map_values(|c: Vec<String>| texts_view(c@));
            let full = cur;
            cur = Vec::new();
            out.push(full);
            proof {
                let cs = out@.map_values(|c: Vec<String>| texts_view(c@));
                assert(cs.drop_last() =~= oldcs);
                assert(cs.last() == texts_view(full@));
                assert(concat_all(cs) + texts_view(cur@) =~= tv.take(i + 1));
            }
        }
        i += 1;
    }
    proof {
        assert(tv.take(n as int) =~= tv);
    }
    if cur.len() > 0 {
        let ghost oldcs = out@.map_values(|c: Vec<String>| texts_view(c@));
        let ghost curv = texts_view(cur@);
        out.push(cur);
        proof {
            let cs = out@.map_values(|c: Vec<String>| texts_view(c@));
            assert(cs.drop_last() =~= oldcs);
            assert(cs.last() == curv);
            assert(concat_all(cs) =~= tv);
        }
    } else {
        proof {
            assert(texts_view(cur@) =~= Seq::<Seq<char>>::empty());
            assert(concat_all(out@.map_values(|c: Vec<String>| texts_view(c@))) =~= tv);
        }
    }
    out
}

/// Re-associates the vectors an underlying call returned with the texts
/// that were sent, by position of the sent batch: one vector per text, in
/// the batch's order.
pub fn associate_embeddings(keys: &Vec<String>, vectors: Vec<Vec<u8>>) -> (r: Vec<EmbeddedText>)
    requires
        keys@.len() == vectors@.len(),
    ensures
        r@.len() == keys@.len(),
        forall|i: int| 0 <= i < r@.len()
            ==> #[trigger] r@[i]@.text == keys@[i]@ && r@[i]@.vector == vectors@[i]@,
{
    let mut out: Vec<EmbeddedText> = Vec::new();
    let n = keys.len();
    let mut vs = vectors;
    let mut i: usize = 0;
    while i < n
        invariant
            i <= n,
            n == keys@.len(),
            vs@.len() == n,
            vs@ == vectors@,
            out@.len() == i,
            forall|k: int| 0 <= k < i
                ==> #[trigger] out@[k]@.text == keys@[k]@ && out@[k]@.vector == vectors@[k]@,
        decreases n - i,
    {
        out.push(EmbeddedText { text: keys[i].clone(), vector: vs[i].clone() });
        i += 1;
    }
    out
}

/// The vector recorded for a text among a call's results: the first entry
/// with that text, if any.
pub open spec fn lookup_of(rs: Seq<EmbedView>, t: Seq<char>) -> Option<Seq<u8>>
    decreases rs.len(),
{
    if rs.len() == 0 {
        None
    } else if rs.first().text == t {
        Some(rs.first().vector)
    } else {
        lookup_of(rs.drop_first(), t)
    }
}

/// Finds the vector a call returned for `text`.  A pure function of the
/// results and the text: every caller asking for the same text out of the
/// same results is handed the same vector.
pub fn lookup_embedding<'a>(results: &'a Vec<EmbeddedText>, text: &String) -> (r: Option<
    &'a Vec<u8>,
>)
    ensures
        match r {
            Some(v) => lookup_of(results@.map_values(|e: EmbeddedText| e@), text@)
                == Some(v@),
            None => lookup_of(results@.map_values(|e: EmbeddedText| e@), text@) is None,
        },
{
    let ghost rv = results@.map_values(|e: EmbeddedText| e@);
    proof {
        assert(rv.skip(0) =~= rv);
    }
    let n = results.len();
    let mut i: usize = 0;
    while i < n
        invariant
            i <= n,
            n == results@.len(),
            rv == results@.map_values(|e: EmbeddedText| e@),
            lookup_of(rv, text@) == lookup_of(rv.skip(i as int), text@),
        decreases n - i,
    {
        proof {
            assert(rv.skip(i as int).first() == rv[i as int]);
            assert(rv.skip(i as int).drop_first() =~= rv.skip(i + 1));
        }
        if results[i].text == *text {
            return Some(&results[i].vector);
        }
        i += 1;
    }
    proof {
        assert(rv.skip(n as int) =~= Seq::<EmbedView>::empty());
    }
    None
}

/// Whether a request for `t` must reach the underlying collaborator: only
/// when no request for the same text is already in flight.
pub open spec fn issues_call(pending: Seq<Seq<char>>, t: Seq<char>) -> bool {
    !pending.contains(t)
}

/// The in-flight set after a request for `t` is admitted.
pub open spec fn pending_after(pending: Seq<Seq<char>>, t: Seq<char>) -> Seq<Seq<char>> {
    if pending.contains(t) {
        pending
    } else {
        pending.push(t)
    }
}

/// The request-coalescing state of the embedding path: the texts whose
/// underlying embedding calls are currently in flight.  A new request for a
/// text already in flight attaches to that call instead of issuing another.
pub struct EmbeddingBatcher {
    pending: Vec<String>,
}

impl View for EmbeddingBatcher {
    type V = Seq<Seq<char>>;

    closed spec fn view(&self) -> Seq<Seq<char>> {
        texts_view(self.pending@)
    }
}

impl EmbeddingBatcher {
    /// A batcher with nothing in flight.
    pub fn new() -> (r: Self)
        ensures
            r@ == Seq::<Seq<char>>::empty(),
    {
        EmbeddingBatcher { pending: Vec::new() }
    }

    /// Admits a request for `text`; the result says whether an underlying
    /// call must be issued, or the request coalesces with one in flight.
    pub fn request(&mut self, text: &String) -> (issue: bool)
        ensures
            issue == issues_call(old(self)@, text@),
            final(self)@ == pending_after(old(self)@, text@),
    {
        if contains_text(&self.pending, text) {
            false
        } else {
            self.pending.push(text.clone());
            proof {
                assert(self@ =~= pending_after(old(self)@, text@));
            }
            true
        }
    }

    /// Retires the in-flight request for `text` once its underlying call
    /// has resolved; the first pending entry for the text is removed.
    pub fn finish(&mut self, text: &String) -> (found: bool)
        ensures
            found == old(self)@.contains(text@),
            final(self)@ == old(self)@.remove_value(text@),
    {
        match find_text(&self.pending, text) {
            Some(j) => {
                proof {
                    assert(old(self)@.index_of_first(text@) == Some(j as int)) by {
                        lemma_index_of_first(old(self)@, text@, j as int);
                    }
                }
                self.pending.remove(j);
                proof {
                    assert(self@ =~= old(self)@.remove(j as int));
                }
                true
            }
            None => {
                proof {
                    if old(self)@.contains(text@) {
                        let k = choose|k: int|
                            0 <= k < old(self)@.len() && old(self)@[k] == text@;
                        assert(false);
                    }
                    old(self)@.index_of_first_ensures(text@);
                }
                false
            }
        }
    }
}

fn find_text(v: &Vec<String>, t: &String) -> (r: Option<usize>)
    ensures
        match r {
            Some(j) => j < v@.len() && texts_view(v@)[j as int] == t@
                && forall|k: int| 0 <= k < j ==> texts_view(v@)[k] != t@,
            None => forall|k: int| 0 <= k < v@.len() ==> texts_view(v@)[k] != t@,
        },
{
    let n = v.len();
    let mut i: usize = 0;
    while i < n
        invariant
            i <= n,
            n == v@.len(),
            forall|k: int| 0 <= k < i ==> texts_view(v@)[k] != t@,
        decreases n - i,
    {
        if v[i] == *t {
            return Some(i);
        }
        i += 1;
    }
    None
}

/// When position `i` holds `t` and nothing before it does, the first
/// occurrence of `t` is at `i`.
proof fn lemma_index_of_first(s: Seq<Seq<char>>, t: Seq<char>, i: int)
    requires
        0 <= i < s.len(),
        s[i] == t,
        forall|k: int| 0 <= k < i ==> s[k] != t,
    ensures
        s.index_of_first(t) == Some(i),
{
    s.index_of_first_ensures(t);
}

/// Request coalescing: once a request for `x` is in flight, a further
/// request for `x` issues no underlying call and leaves the in-flight set
/// unchanged.  Two concurrent requests for one text thus reach the
/// collaborator exactly once between them.
pub proof fn lemma_embed_one_coalesces(pending: Seq<Seq<char>>, x: Seq<char>)
    ensures
        !issues_call(pending_after(pending, x), x),
        pending_after(pending_after(pending, x), x) == pending_after(pending, x),
{
    if !pending.contains(x) {
        assert(pending.push(x)[pending.len() as int] == x);
        assert(pending.push(x).contains(x));
    }
}

/// Both coalesced callers read the same resolved results, so they are
/// handed the same vector: what a caller receives is a function of the
/// results and the text alone.
pub proof fn lemma_coalesced_results_agree(
    rs: Seq<EmbedView>,
    x: Seq<char>,
    r1: Option<Seq<u8>>,
    r2: Option<Seq<u8>>,
)
    requires
        r1 == lookup_of(rs, x),
        r2 == lookup_of(rs, x),
    ensures
        r1 == r2,
{
}

} // verus!
