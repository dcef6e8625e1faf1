//! Half-open spans `[head, tail)` of glyph positions over a buffer, with
//! length, overlap test, and union / intersect / subtract algebra.

use vstd::prelude::*;

verus! {

/// Mathematical model of a span: a half-open range of glyph positions.
/// A span whose `head` lies past its `tail` is treated as empty everywhere.
pub struct SpanM {
    pub head: int,
    pub tail: int,
}

impl SpanM {
    /// Number of positions covered; clamps to zero when `head > tail`.
    pub open spec fn len(self) -> int {
        if self.head <= self.tail {
            self.tail - self.head
        } else {
            0
        }
    }

    pub open spec fn is_empty(self) -> bool {
        self.len() == 0
    }

    /// A span is well formed when its head does not lie past its tail.
    pub open spec fn wf(self) -> bool {
        self.head <= self.tail
    }

    /// Overlap includes mere adjacency: `[0,5)` overlaps `[5,7)`.
    pub open spec fn is_overlapping(self, other: SpanM) -> bool {
        self.head <= other.tail && other.head <= self.tail
    }

    /// The first `n` positions of the span; taking more than is available
    /// silently takes everything.
    pub open spec fn take(self, n: int) -> SpanM {
        SpanM { head: self.head, tail: if n < self.len() { self.head + n } else { self.tail } }
    }

    /// Everything but the first `n` positions; skipping more than is
    /// available silently skips everything.
    pub open spec fn skip(self, n: int) -> SpanM {
        SpanM { head: if n < self.len() { self.head + n } else { self.tail }, tail: self.tail }
    }

    pub open spec fn intersect(self, other: SpanM) -> SpanM {
        SpanM {
            head: if self.head >= other.head { self.head } else { other.head },
            tail: if self.tail <= other.tail { self.tail } else { other.tail },
        }
    }

    pub open spec fn union(self, other: SpanM) -> SpanM {
        SpanM {
            head: if self.head <= other.head { self.head } else { other.head },
            tail: if self.tail >= other.tail { self.tail } else { other.tail },
        }
    }

    /// The region of `self` not covered by `other`, for the simple (non
    /// middle-splitting) cases: either the left fragment or the right one.
    pub open spec fn subtract(self, other: SpanM) -> SpanM {
        if self.head >= other.head && self.tail <= other.tail {
            SpanM { head: self.head, tail: self.head }
        } else if self.head < other.head {
            SpanM { head: self.head, tail: if self.tail <= other.head { self.tail } else { other.head } }
        } else {
            SpanM { head: if self.head >= other.tail { self.head } else { other.tail }, tail: self.tail }
        }
    }

    /// Subtracting `other` from `self` is simple when neither span cuts a
    /// strict middle piece out of the other.
    pub open spec fn simple_subtraction(self, other: SpanM) -> bool {
        !(self.head < other.head && other.tail < self.tail) && !(other.head < self.head
            && self.tail < other.tail)
    }
}

/// A span of input: an *exclusive* range `[head, tail)` of glyph positions.
/// Positions index the buffer a span was generated from; a span should not
/// be used with an input it was not generated from.
#[derive(Debug, Clone, Copy, PartialEq, Eq, Structural)]
pub struct Span {
    head: usize,
    tail: usize,
}

impl View for Span {
    type V = SpanM;

    closed spec fn view(&self) -> SpanM {
        SpanM { head: self.head as int, tail: self.tail as int }
    }
}

impl Span {
    /// Creates a new span from a head and a tail.
    pub fn new(head: usize, tail: usize) -> (r: Span)
        ensures
            r@ == (SpanM { head: head as int, tail: tail as int }),
    {
        Span { head, tail }
    }

    /// Gets the length of the span; a span whose head lies past its tail
    /// has length zero.
    pub fn len(&self) -> (n: usize)
        ensures
            n == self@.len(),
    {
        if self.head <= self.tail {
            self.tail - self.head
        } else {
            0
        }
    }

    /// Checks if the span is empty.
    pub fn is_empty(&self) -> (r: bool)
        ensures
            r == self@.is_empty(),
    {
        self.len() == 0
    }

    /// Gets the current head of the span.
    pub fn head(&self) -> (r: usize)
        ensures
            r == self@.head,
    {
        self.head
    }

    /// Gets the current tail of the span.
    pub fn tail(&self) -> (r: usize)
        ensures
            r == self@.tail,
    {
        self.tail
    }

    /// Increments the head of the span by `n`, stopping at the tail.
    /// Returns the *old* head.
    pub fn increment_head(&mut self, n: usize) -> (r: usize)
        ensures
            final(self)@ == old(self)@.skip(n as int),
            r == old(self)@.head,
    {
        let old_head = self.head;
        let l = self.len();
        if n < l {
            self.head = self.head + n;
        } else {
            self.head = self.tail;
        }
        old_head
    }

    /// Takes a span covering the first `n` positions of `self`. If `n` is
    /// larger than the length, returns the whole span.
    pub fn take(&self, n: usize) -> (r: Span)
        ensures
            r@ == self@.take(n as int),
    {
        let l = self.len();
        if n < l {
            Span { head: self.head, tail: self.head + n }
        } else {
            Span { head: self.head, tail: self.tail }
        }
    }

    /// Returns the span left after dropping the first `n` positions. If `n`
    /// is larger than the length, returns the empty span at the tail.
    pub fn skip(&self, n: usize) -> (r: Span)
        ensures
            r@ == self@.skip(n as int),
    {
        let l = self.len();
        if n < l {
            Span { head: self.head + n, tail: self.tail }
        } else {
            Span { head: self.tail, tail: self.tail }
        }
    }

    /// Checks if two spans overlap; adjacency counts as overlap.
    pub fn is_overlapping(&self, other: Span) -> (r: bool)
        ensures
            r == self@.is_overlapping(other@),
    {
        self.head <= other.tail && other.head <= self.tail
    }

    /// Intersects two spans. The spans must overlap.
    pub fn intersect(&self, other: Span) -> (r: Span)
        requires
            self@.is_overlapping(other@),
        ensures
            r@ == self@.intersect(other@),
    {
        let head = if self.head >= other.head {
            self.head
        } else {
            other.head
        };
        let tail = if self.tail <= other.tail {
            self.tail
        } else {
            other.tail
        };
        Span { head, tail }
    }

    /// Unions two spans. The spans must overlap or be adjacent.
    pub fn union(&self, other: Span) -> (r: Span)
        requires
            self@.is_overlapping(other@),
        ensures
            r@ == self@.union(other@),
    {
        let head = if self.head <= other.head {
            self.head
        } else {
            other.head
        };
        let tail = if self.tail >= other.tail {
            self.tail
        } else {
            other.tail
        };
        Span { head, tail }
    }

    /// Unions two spans, spanning over any gap between them.
    pub fn union_between(&self, other: Span) -> (r: Span)
        ensures
            r@ == self@.union(other@),
    {
        let head = if self.head <= other.head {
            self.head
        } else {
            other.head
        };
        let tail = if self.tail >= other.tail {
            self.tail
        } else {
            other.tail
        };
        Span { head, tail }
    }

    /// Subtracts a span from another span, keeping the left or right
    /// fragment of `self` that `other` does not cover. The spans must
    /// overlap.
    pub fn subtract(&self, other: Span) -> (r: Span)
        requires
            self@.is_overlapping(other@),
        ensures
            r@ == self@.subtract(other@),
    {
        if self.head >= other.head && self.tail <= other.tail {
            Span { head: self.head, tail: self.head }
        } else if self.head < other.head {
            Span {
                head: self.head,
                tail: if self.tail <= other.head {
                    self.tail
                } else {
                    other.head
                },
            }
        } else {
            Span {
                head: if self.head >= other.tail {
                    self.head
                } else {
                    other.tail
                },
                tail: self.tail,
            }
        }
    }
}

} // verus!
