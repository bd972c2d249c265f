//! A document as an ordered sequence of byte lines, with the two numbering
//! passes: inserting dotted tokens into eligible headings, and stripping the
//! second field back out of every heading.

use vstd::prelude::*;

use crate::line::{
    copy_bytes, heading_level, line_with_token, line_without_second, strip_line,
};
use crate::numbering::{
    apply_doc, apply_line_at, build_token, bump_counts, counters_after, counters_of, eligible,
    step_counters,
};

verus! {

/// An ordered sequence of text lines, each a sequence of bytes.
pub struct Document {
    pub lines: Vec<Vec<u8>>,
}

impl View for Document {
    type V = Seq<Seq<u8>>;

    open spec fn view(&self) -> Seq<Seq<u8>> {
        self.lines@.map_values(|l: Vec<u8>| l@)
    }
}

/// The whole document after the stripping pass: every heading line loses its
/// second field, every other line is untouched.
pub open spec fn strip_doc(d: Seq<Seq<u8>>) -> Seq<Seq<u8>> {
    d.map_values(|l: Seq<u8>| strip_line(l))
}

impl Document {
    /// An empty document.
    pub fn new() -> (d: Document)
        ensures
            d@ == Seq::<Seq<u8>>::empty(),
    {
        let d = Document { lines: Vec::new() };
        proof {
            assert(d@ =~= Seq::<Seq<u8>>::empty());
        }
        d
    }

    /// Appends a line.
    pub fn push_line(&mut self, l: Vec<u8>)
        ensures
            final(self)@ == old(self)@ + seq![l@],
    {
        self.lines.push(l);
        proof {
            assert(self@ =~= old(self)@ + seq![l@]);
        }
    }

    /// Number of lines.
    pub fn len(&self) -> (n: usize)
        ensures
            n == self@.len(),
    {
        self.lines.len()
    }

    /// Inserts a dotted numbering token into every heading at level `limit`
    /// or deeper, scanning left to right: the heading's own level counter is
    /// incremented, deeper counters are reset, and the counters from `limit`
    /// to the heading's level, dot-joined with a trailing dot, become the
    /// line's new second field.  All other lines are left untouched.
    pub fn add_prefix_number(&mut self, limit: usize, starting_num: usize)
        requires
            1 <= limit <= 6,
            starting_num <= 1,
        ensures
            final(self)@ == apply_doc(old(self)@, limit as int, starting_num as int - 1),
    {
        let ghost d = self@;
        let ghost r_reset = starting_num as int - 1;
        let n = self.lines.len();
        let mut out: Vec<Vec<u8>> = Vec::new();
        let mut counts: Vec<usize> = Vec::new();
        let mut i: usize = 0;
        while i < n
            invariant
                i <= n,
                n == self.lines@.len(),
                d == self@,
                r_reset == starting_num as int - 1,
                1 <= limit <= 6,
                starting_num <= 1,
                out@.len() == i,
                forall|j: int| 0 <= j < i
                    ==> #[trigger] out@[j]@ == apply_line_at(d, limit as int, r_reset, j),
                counters_of(counts@, starting_num as int) == counters_after(
                    d,
                    limit as int,
                    r_reset,
                    i as int,
                ),
                forall|j: int| 0 <= j < counts@.len() ==> #[trigger] counts@[j] <= i,
            decreases n - i,
        {
            let line = &self.lines[i];
            let mut handled = false;
            match heading_level(line) {
                Some(lev) => {
                    if lev >= limit {
                        proof {
                            assert(d[i as int] == line@);
                            assert(eligible(d[i as int], limit as int));
                        }
                        let new_counts = bump_counts(&counts, lev, i);
                        counts = new_counts;
                        let tok = build_token(&counts, limit, lev, starting_num);
                        let new_line = line_with_token(line, lev, &tok);
                        out.push(new_line);
                        handled = true;
                        proof {
                            assert(counters_of(counts@, starting_num as int) == step_counters(
                                counters_after(d, limit as int, r_reset, i as int),
                                d[i as int],
                                limit as int,
                                r_reset,
                            ));
                            assert(out@[i as int]@ == apply_line_at(
                                d,
                                limit as int,
                                r_reset,
                                i as int,
                            ));
                        }
                    }
                },
                None => {},
            }
            if !handled {
                let copy = copy_bytes(&self.lines[i]);
                out.push(copy);
                proof {
                    assert(!eligible(d[i as int], limit as int));
                    assert(out@[i as int]@ == apply_line_at(d, limit as int, r_reset, i as int));
                }
            }
            proof {
                assert(counters_after(d, limit as int, r_reset, i + 1) == step_counters(
                    counters_after(d, limit as int, r_reset, i as int),
                    d[i as int],
                    limit as int,
                    r_reset,
                ));
            }
            i = i + 1;
        }
        self.lines = out;
        proof {
            assert(self@ =~= apply_doc(d, limit as int, r_reset));
        }
    }

    /// Removes the second space-delimited field of every heading line (any
    /// level); a heading with no second field and every non-heading line are
    /// left untouched.
    pub fn delete_prefix_number(&mut self)
        ensures
            final(self)@ == strip_doc(old(self)@),
    {
        let ghost d = self@;
        let n = self.lines.len();
        let mut out: Vec<Vec<u8>> = Vec::new();
        let mut i: usize = 0;
        while i < n
            invariant
                i <= n,
                n == self.lines@.len(),
                d == self@,
                out@.len() == i,
                forall|j: int| 0 <= j < i ==> #[trigger] out@[j]@ == strip_line(d[j]),
            decreases n - i,
        {
            let line = &self.lines[i];
            match heading_level(line) {
                Some(lev) => {
                    let new_line = line_without_second(line, lev);
                    out.push(new_line);
                },
                None => {
                    let copy = copy_bytes(line);
                    out.push(copy);
                },
            }
            i = i + 1;
        }
        self.lines = out;
        proof {
            assert(self@ =~= strip_doc(d));
        }
    }
}

} // verus!
