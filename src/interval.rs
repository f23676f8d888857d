use vstd::prelude::*;

verus! {

/// A half-open coordinate range `[start, end)` on one contig.
#[derive(Clone, Copy, PartialEq, Eq, Structural, Debug, PartialOrd, Ord)]
pub struct Interval {
    pub start: u64,
    pub end: u64,
}

/// The overlap predicate of the library. It is deliberately asymmetric: an
/// interval `b` that starts exactly at `a.end` counts as overlapping `a`.
pub open spec fn spec_overlapping(a: Interval, b: Interval) -> bool {
    (b.start <= a.start && a.start < b.end) || (a.start <= b.start && b.start <= a.end)
}

impl Interval {
    /// Well-formed intervals do not end before they start.
    pub open spec fn wf(self) -> bool {
        self.start <= self.end
    }

    pub fn new(start: u64, end: u64) -> (r: Interval)
        ensures
            r.start == start,
            r.end == end,
    {
        Interval { start, end }
    }

    pub fn overlapping(&self, other: &Interval) -> (r: bool)
        ensures
            r == spec_overlapping(*self, *other),
    {
        (other.start <= self.start && self.start < other.end) || (self.start <= other.start
            && other.start <= self.end)
    }
}

} // verus!
