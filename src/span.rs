use vstd::prelude::*;

verus! {

/// A position in the source text: 1-based line and column, 0-based byte offset.
#[derive(Debug, PartialEq, Eq, Clone, Copy, Default)]
pub struct Loc {
    pub line: usize,
    pub column: usize,
    pub offset: usize,
}

/// A half-open range `[start, end)` of the source text.
#[derive(Debug, PartialEq, Eq, Clone, Copy, Default)]
pub struct Span {
    pub start: Loc,
    pub end: Loc,
}

/// The span from the start of `a` to the end of `b`.
pub open spec fn join(a: Span, b: Span) -> Span {
    Span { start: a.start, end: b.end }
}

/// `inner` lies within `outer`, measured in byte offsets.
pub open spec fn within(inner: Span, outer: Span) -> bool {
    outer.start.offset <= inner.start.offset && inner.end.offset <= outer.end.offset
}

impl Span {
    /// The empty span at `loc`.
    pub fn at(loc: Loc) -> (r: Span)
        ensures
            r.start == loc,
            r.end == loc,
    {
        Span { start: loc, end: loc }
    }

    /// The span from the start of `self` to the end of `other`.
    pub fn join(&self, other: &Span) -> (r: Span)
        ensures
            r == join(*self, *other),
    {
        Span { start: self.start, end: other.end }
    }

    /// The smallest span that encloses both: the earlier start and the later end.
    pub fn merge(&self, other: &Span) -> (r: Span)
        ensures
            r.start == (if self.start.offset <= other.start.offset { self.start } else { other.start }),
            r.end == (if self.end.offset >= other.end.offset { self.end } else { other.end }),
    {
        let start = if self.start.offset <= other.start.offset { self.start } else { other.start };
        let end = if self.end.offset >= other.end.offset { self.end } else { other.end };
        Span { start, end }
    }
}

} // verus!
