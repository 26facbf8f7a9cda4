use vstd::prelude::*;

verus! {

/// A half-open range of global byte offsets `[start, end)` into the source map.
#[derive(Clone, Copy, Debug, PartialEq, Eq, Structural)]
pub struct Span {
    pub start: u32,
    pub end: u32,
}

impl Span {
    pub fn new(start: u32, end: u32) -> (r: Span)
        ensures
            r.start == start,
            r.end == end,
    {
        Span { start, end }
    }

    /// The smallest span covering both `self` and `other`.
    pub fn merge(self, other: Span) -> (r: Span)
        ensures
            r.start == if self.start <= other.start { self.start } else { other.start },
            r.end == if self.end >= other.end { self.end } else { other.end },
    {
        let start = if self.start <= other.start { self.start } else { other.start };
        let end = if self.end >= other.end { self.end } else { other.end };
        Span { start, end }
    }
}

impl Default for Span {
    fn default() -> (r: Span)
        ensures
            r.start == 0,
            r.end == 0,
    {
        Span { start: 0, end: 0 }
    }
}

} // verus!
