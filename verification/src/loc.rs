//! Source locations: a file identity paired with a half-open byte range.

use vstd::prelude::*;

verus! {

/// A half-open byte range `[start, end)` within one file's text.
#[derive(Clone, Copy, Debug, PartialEq, Eq, Structural)]
pub struct Span {
    /// Byte offset of the first byte of the range.
    pub start: usize,
    /// Byte offset one past the last byte of the range.
    pub end: usize,
}

impl Span {
    /// True when the range is well formed: `start <= end`.
    pub open spec fn wf(self) -> bool {
        self.start <= self.end
    }

    /// Creates a new span.
    pub fn new(start: usize, end: usize) -> (r: Self)
        ensures
            r.start == start,
            r.end == end,
    {
        Span { start, end }
    }
}

/// A source location.
#[derive(Clone, Copy, Debug, PartialEq, Eq, Structural)]
pub struct Loc {
    /// The file of the location.
    pub file: u32,
    /// The span of the location.
    pub span: Span,
}

impl Loc {
    /// True when the span is well formed.
    pub open spec fn wf(self) -> bool {
        self.span.wf()
    }

    /// Creates a new location.
    #[inline(always)]
    pub fn new(file: u32, span: Span) -> (r: Self)
        ensures
            r.file == file,
            r.span == span,
    {
        Loc { file, span }
    }
}

} // verus!
