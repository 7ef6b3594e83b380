//! Byte-offset spans into source text.

use vstd::prelude::*;

verus! {

/// Byte-offset span `start..end` into source text.
#[derive(Debug, Clone, Copy, PartialEq, Eq, Structural)]
pub struct Span {
    pub start: usize,
    pub end: usize,
}

impl Span {
    pub fn new(start: usize, end: usize) -> (r: Span)
        ensures
            r.start == start,
            r.end == end,
    {
        Span { start, end }
    }

    /// The smallest span covering both `a` and `b`.
    pub fn merge(a: &Span, b: &Span) -> (r: Span)
        ensures
            r.start == if a.start <= b.start { a.start } else { b.start },
            r.end == if a.end >= b.end { a.end } else { b.end },
    {
        let start = if a.start <= b.start { a.start } else { b.start };
        let end = if a.end >= b.end { a.end } else { b.end };
        Span { start, end }
    }
}

/// A value paired with its source location.
#[derive(Debug)]
pub struct Spanned<T> {
    pub node: T,
    pub span: Span,
}

impl<T> Spanned<T> {
    pub fn new(node: T, span: Span) -> (r: Self)
        ensures
            r.node == node,
            r.span == span,
    {
        Self { node, span }
    }
}

} // verus!
