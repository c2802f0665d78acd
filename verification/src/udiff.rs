use vstd::prelude::*;

verus! {

/// One contiguous edit region: two half-open line spans, each a start line
/// and a line count. Both starts are 0-based once decoded from the 1-based
/// wire form. Equality is structural over both spans.
#[derive(Clone, Copy, Debug, PartialEq, Eq, Hash, Structural)]
pub struct DiffRange {
    pub before_start: usize,
    pub before_count: usize,
    pub after_start: usize,
    pub after_count: usize,
}

} // verus!
