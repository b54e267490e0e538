//! Half-open ranges of text positions, used to mark where an error sits.

use vstd::prelude::*;
use crate::text::push_char;

verus! {

/// A half-open range `[start, end)` of character positions.
pub struct TextRange {
    pub start: usize,
    pub end: usize,
}

impl TextRange {
    /// The range is well formed when it does not end before it starts.
    pub open spec fn wf(&self) -> bool {
        self.start <= self.end
    }

    /// The number of positions that the range covers.
    pub open spec fn spec_len(&self) -> nat {
        (self.end - self.start) as nat
    }

    /// A range from `start` to `end`; an `end` before `start` is raised to `start`.
    pub fn new(start: usize, end: usize) -> (r: TextRange)
        ensures
            r.wf(),
            r.start == start,
            r.end == if end > start { end } else { start },
    {
        TextRange { start, end: if end > start { end } else { start } }
    }

    /// The number of positions in the range.
    pub fn len(&self) -> (r: usize)
        requires
            self.wf(),
        ensures
            r == self.spec_len(),
    {
        self.end - self.start
    }

    /// A string of `with`, repeated once per position of the range.
    pub fn fill(&self, with: char) -> (r: String)
        requires
            self.wf(),
        ensures
            r@ == Seq::new(self.spec_len(), |_i: int| with),
    {
        let n = self.len();
        let mut r = String::new();
        let mut i: usize = 0;
        while i < n
            invariant
                i <= n,
                r@ == Seq::new(i as nat, |_i: int| with),
            decreases n - i,
        {
            push_char(&mut r, with);
            i += 1;
            assert(r@ =~= Seq::new(i as nat, |_i: int| with));
        }
        r
    }
}

} // verus!
