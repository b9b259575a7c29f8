//! The document model: a configuration file held as an ordered sequence
//! of lines, read from raw text and written back as raw text.

use vstd::prelude::*;
use vstd::string::*;
use crate::text::{
    join_lines, lemma_find_nl, lemma_join_split, lemma_split_lines_wf, lines_wf, normalized,
    split_from, split_lines, find_newline, substr_copy,
};

verus! {

/// An in-memory view of one SSH client configuration file.
///
/// The raw text is held as its sequence of lines; serializing writes
/// every line followed by one newline, which normalizes a missing
/// trailing newline and changes nothing else.
pub struct SSHConfig {
    lines: Vec<String>,
}

impl View for SSHConfig {
    type V = Seq<Seq<char>>;

    closed spec fn view(&self) -> Seq<Seq<char>> {
        Seq::new(self.lines@.len(), |i: int| self.lines@[i]@)
    }
}

impl SSHConfig {
    /// No line of the document contains a line break.
    pub open spec fn wf(&self) -> bool {
        lines_wf(self@)
    }

    /// An empty document.
    pub fn new() -> (r: SSHConfig)
        ensures
            r@ == Seq::<Seq<char>>::empty(),
            r.wf(),
    {
        let r = SSHConfig { lines: Vec::new() };
        proof {
            assert(r@ =~= Seq::<Seq<char>>::empty());
        }
        r
    }

    /// Parse raw file text into its lines.
    pub fn from_text(text: &str) -> (r: SSHConfig)
        ensures
            r@ == split_lines(text@),
            r.wf(),
    {
        let n = text.unicode_len();
        let mut lines: Vec<String> = Vec::new();
        let mut pos: usize = 0;
        while pos < n
            invariant
                pos <= n,
                n == text@.len(),
                Seq::new(lines@.len(), |i: int| lines@[i]@) + split_from(text@, pos as int)
                    =~= split_lines(text@),
            decreases n - pos,
        {
            let j = find_newline(text, pos);
            let line = substr_copy(text, pos, j);
            let ghost prev = Seq::new(lines@.len(), |i: int| lines@[i]@);
            proof {
                lemma_find_nl(text@, pos as int);
                if (j as int) < n as int {
                    assert(prev.push(line@) + split_from(text@, j + 1) =~= prev + split_from(
                        text@,
                        pos as int,
                    ));
                } else {
                    assert(prev.push(line@) + split_from(text@, n as int) =~= prev + split_from(
                        text@,
                        pos as int,
                    ));
                }
            }
            lines.push(line);
            proof {
                assert(Seq::new(lines@.len(), |i: int| lines@[i]@) =~= prev.push(line@));
            }
            if j < n {
                pos = j + 1;
            } else {
                pos = n;
            }
        }
        let r = SSHConfig { lines };
        proof {
            assert(r@ + split_from(text@, n as int) =~= r@);
            assert(r@ =~= split_lines(text@));
            lemma_split_lines_wf(text@);
        }
        r
    }

    /// Serialize the document: every line followed by one newline.
    pub fn to_text(&self) -> (r: String)
        ensures
            r@ == join_lines(self@),
    {
        let mut out = String::new();
        let mut k: usize = 0;
        proof {
            assert(self@.skip(0) =~= self@);
            assert(out@ + join_lines(self@) =~= join_lines(self@));
        }
        while k < self.lines.len()
            invariant
                k <= self.lines.len(),
                self@.len() == self.lines@.len(),
                out@ + join_lines(self@.skip(k as int)) == join_lines(self@),
            decreases self.lines.len() - k,
        {
            let ghost pre = out@;
            let line = &self.lines[k];
            out.append(line.as_str());
            out.append("\n");
            proof {
                reveal_strlit("\n");
                let rest = self@.skip(k as int);
                assert(rest.first() == self@[k as int]);
                assert(rest.drop_first() =~= self@.skip(k as int + 1));
                assert(out@ =~= pre + rest.first().push('\n'));
                assert(out@ + join_lines(self@.skip(k as int + 1)) =~= pre + join_lines(rest));
            }
            k += 1;
        }
        proof {
            assert(self@.skip(self@.len() as int) =~= Seq::<Seq<char>>::empty());
        }
        out
    }

    /// Number of lines.
    pub fn len(&self) -> (r: usize)
        ensures
            r == self@.len(),
    {
        self.lines.len()
    }

    /// The line at index `i`.
    pub fn line_at(&self, i: usize) -> (r: &String)
        requires
            i < self@.len(),
        ensures
            r@ == self@[i as int],
    {
        &self.lines[i]
    }

    /// Replace the whole line sequence; used by the mutators.
    pub(crate) fn set_lines(&mut self, lines: Vec<String>)
        ensures
            final(self)@ == Seq::new(lines@.len(), |i: int| lines@[i]@),
    {
        self.lines = lines;
    }

    /// Append one line at the end of the document.
    pub(crate) fn push_line(&mut self, line: String)
        ensures
            final(self)@ == old(self)@.push(line@),
    {
        let ghost pre = self@;
        self.lines.push(line);
        proof {
            assert(self@ =~= pre.push(line@));
        }
    }
}

/// Reading a text and writing it back yields the text itself, up to
/// trailing-newline normalization.
pub proof fn lemma_document_round_trip(text: Seq<char>)
    ensures
        join_lines(split_lines(text)) == normalized(text),
{
    lemma_join_split(text);
}

} // verus!
