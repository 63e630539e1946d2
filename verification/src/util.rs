//! Bookkeeping shared by the readers.

use vstd::prelude::*;

verus! {

/// The number that follows `n` when lines are counted: one more, except that
/// the count stays at the largest `usize` instead of wrapping.
pub open spec fn next_line_index(n: usize) -> usize {
    if n < usize::MAX {
        (n + 1) as usize
    } else {
        n
    }
}

/// Counts the lines that were read, so that an error can say where it arose.
/// The first line of an input has number 1.
#[derive(Debug, Clone, Copy, PartialEq, Eq)]
pub struct LocationTracker {
    pub line_index: usize,
}

impl LocationTracker {
    /// A tracker that stands before the first line.
    pub fn new() -> (r: Self)
        ensures
            r.line_index == 0,
    {
        LocationTracker { line_index: 0 }
    }

    /// Moves on to the next line.
    pub fn next_line(&mut self)
        ensures
            final(self).line_index == next_line_index(old(self).line_index),
    {
        if self.line_index < usize::MAX {
            self.line_index = self.line_index + 1;
        }
    }
}

} // verus!
