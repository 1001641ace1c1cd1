//! Numbered input lines with replay, shared by detection and every format
//! reader.

use vstd::prelude::*;
use crate::text::{chars_of, lines_of, split_lines, string_of, trim, trim_seq, trim_start_seq};
use crate::format_detector::lead_ws_exec;

verus! {

/// One input line without its terminator, numbered from 1.
#[derive(Debug, PartialEq, Eq)]
pub struct Line {
    pub number: usize,
    pub text: String,
}

/// A line as a number and its characters.
pub open spec fn line_view(l: Line) -> (nat, Seq<char>) {
    (l.number as nat, l.text@)
}

/// A line of only whitespace.
pub open spec fn blank_text(t: Seq<char>) -> bool {
    trim_seq(t).len() == 0
}

/// A line whose first non-whitespace character is `#`.
pub open spec fn comment_text(t: Seq<char>) -> bool {
    trim_start_seq(t).len() > 0 && trim_start_seq(t)[0] == '#'
}

impl Line {
    pub fn is_blank(&self) -> (r: bool)
        ensures
            r == blank_text(self.text@),
    {
        let v = chars_of(self.text.as_str());
        trim(&v).len() == 0
    }

    pub fn is_comment(&self) -> (r: bool)
        ensures
            r == comment_text(self.text@),
    {
        let v = chars_of(self.text.as_str());
        let k = lead_ws_exec(&v);
        k < v.len() && v[k] == '#'
    }

    /// A copy of this line.
    pub fn copy(&self) -> (r: Line)
        ensures
            r == *self,
    {
        Line { number: self.number, text: self.text.clone() }
    }
}

/// The numbered lines of `s`, numbers from `first`.
pub open spec fn numbered(ls: Seq<Seq<char>>, first: nat) -> Seq<(nat, Seq<char>)> {
    Seq::new(ls.len(), |i: int| ((first + i) as nat, ls[i]))
}

/// The views of `lines`, in order.
pub open spec fn lines_view(lines: Seq<Line>) -> Seq<(nat, Seq<char>)> {
    lines.map_values(|l: Line| line_view(l))
}

/// Reads numbered lines from an input, serving replayed lines before fresh
/// ones.
pub struct LineSource {
    fresh: Vec<Vec<char>>,
    next: usize,
    replay: Vec<Line>,
}

impl LineSource {
    /// The source's position lies within its input.
    pub closed spec fn wf(self) -> bool {
        self.next <= self.fresh@.len()
    }

    /// Every line still to be served, in order.
    pub closed spec fn queue(self) -> Seq<(nat, Seq<char>)> {
        lines_view(self.replay@.reverse()) + numbered(
            self.fresh@.skip(self.next as int).map_values(|l: Vec<char>| l@),
            (self.next + 1) as nat,
        )
    }

    /// A source over the lines of `input`, as `str::lines` splits them,
    /// numbered from 1.
    pub fn new(input: &str) -> (r: LineSource)
        ensures
            r.wf(),
            r.queue() == numbered(lines_of(input@), 1),
    {
        let v = chars_of(input);
        let fresh = split_lines(&v);
        let r = LineSource { fresh, next: 0, replay: Vec::new() };
        proof {
            let m = fresh@.skip(0).map_values(|l: Vec<char>| l@);
            assert(m == lines_of(input@)) by {
                assert(m.len() == lines_of(input@).len());
                assert forall|i: int| 0 <= i < m.len() implies m[i] == lines_of(input@)[i] by {
                    assert(fresh@.skip(0)[i] == fresh@[i]);
                }
            }
            assert(lines_view(r.replay@.reverse()) == Seq::<(nat, Seq<char>)>::empty());
            assert(r.queue() == numbered(lines_of(input@), 1));
        }
        r
    }

    /// The next line, or `None` at end of input.
    pub fn next_line(&mut self) -> (r: Option<Line>)
        requires
            old(self).wf(),
        ensures
            final(self).wf(),
            old(self).queue().len() == 0 ==> r is None && final(self).queue() == old(self).queue(),
            old(self).queue().len() > 0 ==> (r matches Some(l) && line_view(l) == old(self).queue()[0]
                && final(self).queue() == old(self).queue().drop_first()),
    {
        let ghost q = self.queue();
        if self.replay.len() > 0 {
            let line = self.replay.pop().unwrap();
            proof {
                let old_rev = old(self).replay@.reverse();
                assert(old_rev[0] == line);
                assert(self.replay@.reverse() == old_rev.drop_first());
                assert(lines_view(old_rev) == seq![line_view(line)] + lines_view(old_rev.drop_first()));
                assert(self.queue() == q.drop_first());
            }
            return Some(line);
        }
        if self.next < self.fresh.len() {
            let text = string_of(self.fresh[self.next].as_slice());
            let line = Line { number: self.next + 1, text };
            proof {
                assert(lines_view(self.replay@.reverse()) == Seq::<(nat, Seq<char>)>::empty());
            }
            self.next = self.next + 1;
            proof {
                let old_f = old(self).fresh@.skip(old(self).next as int).map_values(|l: Vec<char>| l@);
                let new_f = self.fresh@.skip(self.next as int).map_values(|l: Vec<char>| l@);
                assert(new_f == old_f.drop_first());
                assert(numbered(new_f, (self.next + 1) as nat) == numbered(old_f, (old(self).next + 1) as nat).drop_first());
                assert(self.queue() == q.drop_first());
            }
            return Some(line);
        }
        proof {
            assert(q.len() == 0);
        }
        None
    }

    /// Serve `lines`, in order, before anything not yet served.
    pub fn replay(&mut self, lines: Vec<Line>)
        requires
            old(self).wf(),
        ensures
            final(self).wf(),
            final(self).queue() == lines_view(lines@) + old(self).queue(),
    {
        let mut i = lines.len();
        let ghost q = self.queue();
        while i > 0
            invariant
                i <= lines.len(),
                self.next <= self.fresh@.len(),
                self.queue() == lines_view(lines@.skip(i as int)) + q,
            decreases i,
        {
            i = i - 1;
            let ghost before = self.replay@;
            let ghost fresh_part = numbered(
                self.fresh@.skip(self.next as int).map_values(|l: Vec<char>| l@),
                (self.next + 1) as nat,
            );
            let x = lines[i].copy();
            self.replay.push(x);
            proof {
                let lv = line_view(x);
                assert(self.replay@.reverse() =~= seq![x] + before.reverse());
                assert(lines_view(seq![x] + before.reverse()) =~= seq![lv] + lines_view(before.reverse()));
                assert(lines@.skip(i as int) =~= seq![x] + lines@.skip(i + 1));
                assert(lines_view(seq![x] + lines@.skip(i + 1)) =~= seq![lv] + lines_view(lines@.skip(i + 1)));
                assert(lines_view(before.reverse()) + fresh_part == lines_view(lines@.skip(i + 1)) + q);
                assert(self.queue() == lines_view(self.replay@.reverse()) + fresh_part);
                assert(self.queue() =~= seq![lv] + (lines_view(before.reverse()) + fresh_part));
                assert(lines_view(lines@.skip(i as int)) + q =~= seq![lv] + (lines_view(lines@.skip(i + 1)) + q));
            }
        }
        proof {
            assert(lines@.skip(0) == lines@);
        }
    }

    /// Every line left in the input, replayed lines first.
    pub fn read_to_end(&mut self) -> (r: Vec<Line>)
        requires
            old(self).wf(),
        ensures
            final(self).wf(),
            lines_view(r@) == old(self).queue(),
            final(self).queue().len() == 0,
    {
        let mut r: Vec<Line> = Vec::new();
        let ghost q = self.queue();
        loop
            invariant
                lines_view(r@) + self.queue() == q,
                q == old(self).queue(),
                self.wf(),
            decreases self.queue().len(),
        {
            let ghost before = self.queue();
            match self.next_line() {
                Some(line) => {
                    proof {
                        assert(lines_view(r@.push(line)) == lines_view(r@).push(line_view(line)));
                        assert(before == seq![before[0]] + before.drop_first());
                    }
                    r.push(line);
                },
                None => {
                    proof {
                        assert(self.queue() =~= Seq::<(nat, Seq<char>)>::empty());
                        assert(lines_view(r@) + self.queue() =~= lines_view(r@));
                    }
                    return r;
                },
            }
        }
    }
}

} // verus!
