//! The input cursor: an immutable underlying byte buffer together with a
//! `Span` marking the currently visible window. Consumption never shrinks
//! the buffer, it only narrows the span; forking copies the descriptor.

use crate::span::{Span, SpanM};
use vstd::prelude::*;

verus! {

/// Anything that can serve as an underlying buffer: it has a length, hands
/// out single bytes and sub-buffers, and can be forked cheaply.
pub trait Underlying: Sized {
    /// The byte content of the buffer.
    spec fn bytes(&self) -> Seq<u8>;

    /// Gets the length of the underlying data.
    fn len(&self) -> (n: usize)
        ensures
            n == self.bytes().len(),
    ;

    /// Whether the underlying data is empty.
    fn is_empty(&self) -> (r: bool)
        ensures
            r == (self.bytes().len() == 0),
    ;

    /// Gets the byte at index `n`, if `n` is within bounds.
    fn byte_at(&self, n: usize) -> (r: Option<u8>)
        ensures
            n < self.bytes().len() ==> r == Some(self.bytes()[n as int]),
            n >= self.bytes().len() ==> r is None,
    ;

    /// Gets the bytes from `start` to `end`, exclusive of `end`, if the
    /// range is valid.
    fn byte_span(&self, start: usize, end: usize) -> (r: Option<Vec<u8>>)
        ensures
            (start <= end <= self.bytes().len()) ==> (r matches Some(w) && w@ == self.bytes().subrange(
                start as int,
                end as int,
            )),
            !(start <= end <= self.bytes().len()) ==> r is None,
    ;

    /// Gets a sub-buffer covering `start` to `end`, exclusive of `end`, if
    /// the range is valid.
    fn span(&self, start: usize, end: usize) -> (r: Option<Self>)
        ensures
            (start <= end <= self.bytes().len()) ==> (r matches Some(w) && w.bytes()
                == self.bytes().subrange(start as int, end as int)),
            !(start <= end <= self.bytes().len()) ==> r is None,
    ;

    /// Transparently duplicates the underlying source.
    fn fork(&self) -> (r: Self)
        ensures
            r.bytes() == self.bytes(),
    ;
}

/// Copies a range of a byte vector; the caller guarantees a valid range.
fn copy_range(v: &Vec<u8>, start: usize, end: usize) -> (r: Vec<u8>)
    requires
        start <= end <= v@.len(),
    ensures
        r@ == v@.subrange(start as int, end as int),
{
    let mut out: Vec<u8> = Vec::new();
    let mut i: usize = start;
    while i < end
        invariant
            start <= i <= end <= v@.len(),
            out@ == v@.subrange(start as int, i as int),
        decreases end - i,
    {
        out.push(v[i]);
        assert(out@ == v@.subrange(start as int, i + 1 as int));
        i = i + 1;
    }
    out
}

/// Copies a whole byte vector.
pub(crate) fn copy_range_all(v: &Vec<u8>) -> (r: Vec<u8>)
    ensures
        r@ == v@,
{
    let r = copy_range(v, 0, v.len());
    assert(v@.subrange(0, v@.len() as int) =~= v@);
    r
}

impl Underlying for Vec<u8> {
    open spec fn bytes(&self) -> Seq<u8> {
        self@
    }

    fn len(&self) -> (n: usize) {
        Vec::len(self)
    }

    fn is_empty(&self) -> (r: bool) {
        Vec::len(self) == 0
    }

    fn byte_at(&self, n: usize) -> (r: Option<u8>) {
        if n < Vec::len(self) {
            Some(self[n])
        } else {
            None
        }
    }

    fn byte_span(&self, start: usize, end: usize) -> (r: Option<Vec<u8>>) {
        if start <= end && end <= Vec::len(self) {
            Some(copy_range(self, start, end))
        } else {
            None
        }
    }

    fn span(&self, start: usize, end: usize) -> (r: Option<Self>) {
        if start <= end && end <= Vec::len(self) {
            Some(copy_range(self, start, end))
        } else {
            None
        }
    }

    fn fork(&self) -> (r: Self) {
        copy_range(self, 0, Vec::len(self))
    }
}

/// Mathematical model of an input: the buffer's bytes and the visible
/// window.
pub struct InputM {
    pub bytes: Seq<u8>,
    pub span: SpanM,
}

impl InputM {
    /// Length of the visible window.
    pub open spec fn len(self) -> int {
        self.span.len()
    }

    pub open spec fn is_empty(self) -> bool {
        self.len() == 0
    }

    /// The window lies within the buffer.
    pub open spec fn wf(self) -> bool {
        self.span.wf() && self.span.tail <= self.bytes.len()
    }

    /// The visible bytes; meaningful for well-formed inputs.
    pub open spec fn window(self) -> Seq<u8> {
        self.bytes.subrange(self.span.head, self.span.tail)
    }

    /// The byte at absolute position `pos`, provided it lies both inside
    /// the window and inside the buffer.
    pub open spec fn at(self, pos: int) -> Option<u8> {
        if self.span.head <= pos < self.span.tail && 0 <= pos < self.bytes.len() {
            Some(self.bytes[pos])
        } else {
            None
        }
    }

    /// The next visible byte, if any.
    pub open spec fn peek(self) -> Option<u8> {
        self.at(self.span.head)
    }

    pub open spec fn take(self, n: int) -> InputM {
        InputM { bytes: self.bytes, span: self.span.take(n) }
    }

    pub open spec fn skip(self, n: int) -> InputM {
        InputM { bytes: self.bytes, span: self.span.skip(n) }
    }

    pub open spec fn skip_all(self) -> InputM {
        self.skip(self.len())
    }

    pub open spec fn subtract(self, other: InputM) -> InputM {
        InputM { bytes: self.bytes, span: self.span.subtract(other.span) }
    }

    pub open spec fn join(self, other: InputM) -> InputM {
        InputM { bytes: self.bytes, span: self.span.union(other.span) }
    }
}

/// The input to a parser. `Input` never deletes or shrinks the underlying
/// buffer; all consumption narrows the span it covers.
#[derive(Debug)]
pub struct Input {
    underlying: Vec<u8>,
    span: Span,
}

impl View for Input {
    type V = InputM;

    closed spec fn view(&self) -> InputM {
        InputM { bytes: self.underlying@, span: self.span@ }
    }
}

impl Input {
    /// Creates a new `Input` whose window covers the whole buffer.
    pub fn new(input: Vec<u8>) -> (r: Input)
        ensures
            r@ == (InputM {
                bytes: input@,
                span: SpanM { head: 0, tail: input@.len() as int },
            }),
            r@.wf(),
    {
        let n = Underlying::len(&input);
        Input { span: Span::new(0, n), underlying: input }
    }

    /// Creates a new `Input` with a specific window.
    pub fn new_with_span(input: Vec<u8>, span: Span) -> (r: Input)
        ensures
            r@ == (InputM { bytes: input@, span: span@ }),
    {
        Input { underlying: input, span }
    }

    /// Gets the visible window as a buffer of its own. The window must lie
    /// within the buffer.
    pub fn as_inner(&self) -> (r: Vec<u8>)
        requires
            self@.wf(),
        ensures
            r@ == self@.window(),
    {
        copy_range(&self.underlying, self.span.head(), self.span.tail())
    }

    /// Checks if the visible window is empty.
    pub fn is_empty(&self) -> (r: bool)
        ensures
            r == self@.is_empty(),
    {
        self.span.is_empty()
    }

    /// Length of the visible window.
    pub fn len(&self) -> (n: usize)
        ensures
            n == self@.len(),
    {
        self.span.len()
    }

    /// Consumes a single byte of the input and returns it, or `None` at the
    /// end of the window.
    pub fn next(&mut self) -> (r: Option<u8>)
        ensures
            final(self)@ == old(self)@.skip(1),
            r == old(self)@.peek(),
    {
        let r = self.peek();
        let sp = self.span.skip(1);
        self.span = sp;
        r
    }

    /// Peeks at the next byte of the input without consuming it.
    pub fn peek(&self) -> (r: Option<u8>)
        ensures
            r == self@.peek(),
    {
        if self.span.head() < self.span.tail() {
            self.underlying.byte_at(self.span.head())
        } else {
            None
        }
    }

    /// Peeks at the `n`th byte of the window from the current position.
    /// `peek_nth(0)` and `peek_nth(1)` both give the next byte.
    pub fn peek_nth(&self, n: usize) -> (r: Option<u8>)
        ensures
            n == 0 ==> r == self@.peek(),
            n >= 1 ==> r == self@.at(self@.span.head + n - 1),
    {
        if n == 0 {
            self.peek()
        } else {
            let k = n - 1;
            let lw = self.span.len();
            if k < lw {
                let h = self.span.head();
                let t = self.span.tail();
                assert(h + k < t);
                self.underlying.byte_at(h + k)
            } else {
                None
            }
        }
    }

    /// A window over the first `n` visible bytes; taking more than is
    /// visible takes everything.
    pub fn take(&self, n: usize) -> (r: Input)
        ensures
            r@ == self@.take(n as int),
    {
        Input { underlying: self.underlying.fork(), span: self.span.take(n) }
    }

    /// A window that drops the first `n` visible bytes; skipping more than
    /// is visible skips everything.
    pub fn skip(&self, n: usize) -> (r: Input)
        ensures
            r@ == self@.skip(n as int),
    {
        Input { underlying: self.underlying.fork(), span: self.span.skip(n) }
    }

    /// Skips all the way to the end of the window.
    pub fn skip_all(&self) -> (r: Input)
        ensures
            r@ == self@.skip_all(),
    {
        let n = self.span.len();
        Input { underlying: self.underlying.fork(), span: self.span.skip(n) }
    }

    /// Forks the input, creating two independent inputs over the same
    /// bytes.
    pub fn fork(&self) -> (r: Input)
        ensures
            r@ == self@,
    {
        Input { underlying: self.underlying.fork(), span: self.span }
    }

    /// Subtracts the span of `other` from `self` and returns the remaining
    /// input. The spans must overlap.
    pub fn subtract(&self, other: &Input) -> (r: Input)
        requires
            self@.span.is_overlapping(other@.span),
        ensures
            r@ == self@.subtract(other@),
    {
        Input { underlying: self.underlying.fork(), span: self.span.subtract(other.span) }
    }

    /// Joins two inputs into one spanning both windows. The windows must
    /// overlap or be adjacent.
    pub fn join(&self, other: &Input) -> (r: Input)
        requires
            self@.span.is_overlapping(other@.span),
        ensures
            r@ == self@.join(other@),
    {
        Input { underlying: self.underlying.fork(), span: self.span.union(other.span) }
    }

    /// Gets the span of the input.
    pub fn span(&self) -> (r: Span)
        ensures
            r@ == self@.span,
    {
        self.span
    }
}

/// Window-content equality: two inputs are equal when their windows are
/// both valid and hold the same bytes, or are both invalid.
impl PartialEq for Input {
    fn eq(&self, other: &Input) -> (r: bool) {
        let a = self.underlying.byte_span(self.span.head(), self.span.tail());
        let b = other.underlying.byte_span(other.span.head(), other.span.tail());
        match (a, b) {
            (Some(x), Some(y)) => eq_bytes(&x, &y),
            (None, None) => true,
            _ => false,
        }
    }
}

impl vstd::std_specs::cmp::PartialEqSpecImpl for Input {
    open spec fn obeys_eq_spec() -> bool {
        true
    }

    open spec fn eq_spec(&self, other: &Input) -> bool {
        if self@.wf() && other@.wf() {
            self@.window() == other@.window()
        } else {
            !self@.wf() && !other@.wf()
        }
    }
}

/// Compares two byte vectors for equality.
fn eq_bytes(a: &Vec<u8>, b: &Vec<u8>) -> (r: bool)
    ensures
        r == (a@ == b@),
{
    if Vec::len(a) != Vec::len(b) {
        assert(a@ != b@);
        return false;
    }
    let n = Vec::len(a);
    let mut i: usize = 0;
    while i < n
        invariant
            0 <= i <= n,
            n == a@.len() == b@.len(),
            forall|j: int| 0 <= j < i ==> a@[j] == b@[j],
        decreases n - i,
    {
        if a[i] != b[i] {
            return false;
        }
        i = i + 1;
    }
    assert(a@ =~= b@);
    true
}

} // verus!
