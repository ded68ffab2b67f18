//! Keeps count of the lines that have been read.

use vstd::prelude::*;

verus! {

/// The number of the line that is being read: 0 before the first line, and
/// one more with every line. It only serves to say where an error occurred.
#[derive(Clone, Copy, Debug, PartialEq, Eq, Structural)]
pub struct LocationTracker {
    pub line_index: usize,
}

/// The number after `n`, as far as the machine can count.
pub open spec fn after(n: usize) -> usize {
    if n < usize::MAX {
        (n + 1) as usize
    } else {
        n
    }
}

impl LocationTracker {
    /// A tracker that stands before the first line.
    pub fn new() -> (r: Self)
        ensures
            r.line_index == 0,
    {
        LocationTracker { line_index: 0 }
    }

    /// Goes on to the next line.
    pub fn next_line(&mut self)
        ensures
            final(self).line_index == after(old(self).line_index),
    {
        if self.line_index < usize::MAX {
            self.line_index += 1;
        }
    }
}

} // verus!
