//! Structural spans over a document's text and the endpoint test that
//! relates them to the byte range of a changed line.

use std::ops::Range;
use vstd::prelude::*;

verus! {

/// A half-open byte range `[start, end)` delimiting one structural element of
/// a document.
#[derive(Clone, Copy, Debug, PartialEq, Eq, Structural)]
pub struct Span {
    pub start: usize,
    pub end: usize,
}

impl Span {
    /// A span holds the point `p` when `start <= p < end`.
    pub open spec fn holds(self, p: int) -> bool {
        self.start <= p < self.end
    }

    /// A span meets a changed range when it holds the range's start or the
    /// range's end. Only these two points are looked at: a range that engulfs
    /// the span without an endpoint inside it does not meet it.
    pub open spec fn meets(self, changed: Range<usize>) -> bool {
        self.holds(changed.start as int) || self.holds(changed.end as int)
    }

    /// Whether the span holds the byte offset `val`.
    pub fn contains(&self, val: usize) -> (r: bool)
        ensures
            r == self.holds(val as int),
    {
        self.start <= val && val < self.end
    }

    /// Whether the span meets the changed range `other`.
    pub fn intersects(&self, other: &Range<usize>) -> (r: bool)
        ensures
            r == self.meets(*other),
    {
        self.contains(other.start) || self.contains(other.end)
    }
}

} // verus!
