use vstd::prelude::*;

verus! {

/// A half-open byte range `[start, end)` into the source text.
#[derive(Clone, Copy, Debug, PartialEq, Eq, Structural)]
pub struct Span {
    pub start: usize,
    pub end: usize,
}

/// Why a span could not be built.
#[derive(Clone, Copy, Debug, PartialEq, Eq, Structural)]
pub enum SpanError {
    Inverted { start: usize, end: usize },
}

impl Span {
    /// The span lies inside a text of `len` bytes.
    pub open spec fn within(self, len: nat) -> bool {
        self.start <= self.end && self.end <= len
    }

    pub fn new(start: usize, end: usize) -> (res: Result<Span, SpanError>)
        ensures
            start <= end ==> res == Ok::<Span, SpanError>(Span { start, end }),
            start > end ==> res == Err::<Span, SpanError>(SpanError::Inverted { start, end }),
    {
        if start <= end {
            Ok(Span { start, end })
        } else {
            Err(SpanError::Inverted { start, end })
        }
    }

    pub fn len(&self) -> (n: usize)
        ensures
            n == (if self.end >= self.start { (self.end - self.start) as usize } else { 0usize }),
    {
        self.end.saturating_sub(self.start)
    }

    pub fn is_empty(&self) -> (b: bool)
        ensures
            b == (self.start == self.end),
    {
        self.start == self.end
    }
}

} // verus!
