use vstd::prelude::*;

verus! {

/// One semantic unit of a document: a heading line, or one or more adjacent
/// non-heading lines joined by newlines.
#[derive(Debug, PartialEq)]
pub enum FileFragment {
    Heading(String),
    Paragraph(String),
}

/// The mathematical content of a fragment.
pub enum Frag {
    Heading(Seq<char>),
    Paragraph(Seq<char>),
}

impl View for FileFragment {
    type V = Frag;

    open spec fn view(&self) -> Frag {
        match self {
            FileFragment::Heading(s) => Frag::Heading(s@),
            FileFragment::Paragraph(s) => Frag::Paragraph(s@),
        }
    }
}

/// The whitespace characters the heading rule accepts between the marker
/// run and the heading text.
pub open spec fn spec_is_space(c: char) -> bool {
    c == ' ' || c == '\t' || c == '\n' || c == '\r' || c == '\x0b' || c == '\x0c'
}

/// How many copies of `m` the line begins with.
pub open spec fn marker_run_len(s: Seq<char>, m: char) -> int
    decreases s.len(),
{
    if s.len() == 0 || s[0] != m {
        0
    } else {
        1 + marker_run_len(s.drop_first(), m)
    }
}

/// Whether a line is a heading: one or more marker characters, then a
/// whitespace character, then at least one further character.
pub open spec fn spec_is_heading(s: Seq<char>, m: char) -> bool {
    let j = marker_run_len(s, m);
    1 <= j && j + 2 <= s.len() && spec_is_space(s[j])
}

/// The fold of §-style lines into fragments: a heading line always starts a
/// fragment of its own; a non-heading line is appended, after a newline, to
/// an immediately preceding paragraph, and otherwise starts a new paragraph.
pub open spec fn fragments_of(lines: Seq<Seq<char>>, m: char) -> Seq<Frag>
    decreases lines.len(),
{
    if lines.len() == 0 {
        Seq::empty()
    } else {
        let prev = fragments_of(lines.drop_last(), m);
        let l = lines.last();
        if spec_is_heading(l, m) {
            prev.push(Frag::Heading(l))
        } else if prev.len() > 0 {
            match prev.last() {
                Frag::Paragraph(t) => prev.drop_last().push(Frag::Paragraph(t + seq!['\n'] + l)),
                Frag::Heading(_) => prev.push(Frag::Paragraph(l)),
            }
        } else {
            prev.push(Frag::Paragraph(l))
        }
    }
}

fn is_space(c: char) -> (r: bool)
    ensures
        r == spec_is_space(c),
{
    c == ' ' || c == '\t' || c == '\n' || c == '\r' || c == '\x0b' || c == '\x0c'
}

/// When the first `j` characters are the marker and the next one (if any)
/// is not, the marker run has length exactly `j`.
proof fn lemma_marker_run_len(s: Seq<char>, m: char, j: int)
    requires
        0 <= j <= s.len(),
        forall|k: int| 0 <= k < j ==> s[k] == m,
        j < s.len() ==> s[j] != m,
    ensures
        marker_run_len(s, m) == j,
    decreases s.len(),
{
    if s.len() == 0 {
    } else if j == 0 {
    } else {
        assert(s[0] == m);
        let t = s.drop_first();
        assert(forall|k: int| 0 <= k < j - 1 ==> t[k] == m);
        lemma_marker_run_len(t, m, j - 1);
    }
}

/// Whether `line` is a heading for the given marker character.
pub fn is_heading(line: &str, marker: char) -> (r: bool)
    ensures
        r == spec_is_heading(line@, marker),
{
    let n = line.unicode_len();
    let mut j: usize = 0;
    while j < n && line.get_char(j) == marker
        invariant
            j <= n,
            n == line@.len(),
            forall|k: int| 0 <= k < j ==> line@[k] == marker,
        decreases n - j,
    {
        j += 1;
    }
    proof {
        lemma_marker_run_len(line@, marker, j as int);
    }
    if j >= 1 && n >= 2 && j <= n - 2 {
        is_space(line.get_char(j))
    } else {
        false
    }
}

/// Folds a file's lines into its ordered fragment sequence, per the rule of
/// `fragments_of`: deterministic, order-preserving, merging only adjacent
/// paragraph lines and never across a heading.
pub fn parse_lines(lines: &Vec<String>, marker: char) -> (r: Vec<FileFragment>)
    ensures
        r@.map_values(|f: FileFragment| f@)
            == fragments_of(lines@.map_values(|l: String| l@), marker),
{
    let ghost lv = lines@.map_values(|l: String| l@);
    let mut out: Vec<FileFragment> = Vec::new();
    let n = lines.len();
    let mut i: usize = 0;
    while i < n
        invariant
            i <= n,
            n == lines@.len(),
            lv == lines@.map_values(|l: String| l@),
            out@.map_values(|f: FileFragment| f@) == fragments_of(lv.take(i as int), marker),
        decreases n - i,
    {
        let line = &lines[i];
        proof {
            assert(lv.take(i + 1).drop_last() =~= lv.take(i as int));
            assert(lv.take(i + 1).last() == lv[i as int]);
        }
        if is_heading(line.as_str(), marker) {
            out.push(FileFragment::Heading(line.clone()));
            proof {
                assert(out@.map_values(|f: FileFragment| f@)
                    =~= fragments_of(lv.take(i + 1), marker));
            }
        } else {
            let mut merged = false;
            if out.len() > 0 {
                if matches!(&out[out.len() - 1], FileFragment::Paragraph(_)) {
                    let popped = out.pop().unwrap();
                    if let FileFragment::Paragraph(mut t) = popped {
                        t.append("\n");
                        t.append(line.as_str());
                        proof {
                            reveal_strlit("\n");
                            assert("\n"@ =~= seq!['\n']);
                        }
                        out.push(FileFragment::Paragraph(t));
                        merged = true;
                        proof {
                            assert(out@.map_values(|f: FileFragment| f@)
                                =~= fragments_of(lv.take(i + 1), marker));
                        }
                    }
                }
            }
            if !merged {
                out.push(FileFragment::Paragraph(line.clone()));
                proof {
                    assert(out@.map_values(|f: FileFragment| f@)
                        =~= fragments_of(lv.take(i + 1), marker));
                }
            }
        }
        i += 1;
    }
    proof {
        assert(lv.take(n as int) =~= lv);
    }
    out
}

} // verus!
