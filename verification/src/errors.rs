//! The error model: a tagged error value carrying a span (where) and a kind
//! (what). Errors compose across sequencing, alternation and commit without
//! losing positional information.

use crate::span::{Span, SpanM};
use vstd::prelude::*;

verus! {

/// Mathematical model of an expected-kind diagnostic.
pub enum ExpectedM {
    Is(Seq<u8>),
    Not(Seq<u8>),
    Digit(u32),
    Alpha,
    AlphaNum,
    Whitespace,
    Newlines,
    WhitespaceNoNewlines,
    Nothing,
    Anything,
}

/// Mathematical model of an error kind.
pub enum KindM {
    Empty,
    Committed(Box<ErrorM>),
    Expected(ExpectedM),
    All(Seq<ErrorM>),
    Sequence(Seq<ErrorM>),
    Custom(u64),
}

/// Mathematical model of an error: a kind and the span it covers.
pub struct ErrorM {
    pub kind: KindM,
    pub from: SpanM,
}

impl ErrorM {
    /// Number of leaf diagnostics held by this error.
    pub open spec fn count(self) -> nat
        decreases self,
    {
        match self.kind {
            KindM::Empty => 0,
            KindM::Committed(e) => e.count(),
            KindM::Expected(_) => 1,
            KindM::All(es) => Self::count_seq(es),
            KindM::Sequence(es) => Self::count_seq(es),
            KindM::Custom(_) => 1,
        }
    }

    pub open spec fn count_seq(es: Seq<ErrorM>) -> nat
        decreases es,
    {
        if es.len() == 0 {
            0
        } else {
            Self::count_seq(es.drop_last()) + es.last().count()
        }
    }

    pub open spec fn is_empty(self) -> bool {
        self.count() == 0
    }

    pub open spec fn is_committed(self) -> bool {
        self.kind is Committed
    }

    /// Marking an error as committed wraps it once; a committed error stays
    /// as it is.
    pub open spec fn commit(self) -> ErrorM {
        if self.kind is Committed {
            self
        } else {
            ErrorM { kind: KindM::Committed(Box::new(self)), from: self.from }
        }
    }

    /// Appending an error: an empty error is replaced outright, a sequence
    /// grows by one, and anything else becomes a two-element sequence. The
    /// span grows to cover both errors, spanning over any gap.
    pub open spec fn push(self, e: ErrorM) -> ErrorM {
        match self.kind {
            KindM::Empty => e,
            KindM::Sequence(es) => ErrorM {
                kind: KindM::Sequence(es.push(e)),
                from: self.from.union(e.from),
            },
            _ => ErrorM { kind: KindM::Sequence(seq![self, e]), from: self.from.union(e.from) },
        }
    }
}

/// We expected the input to be a specific thing, but it was not.
#[derive(Debug, PartialEq)]
pub enum ExpectedError {
    /// We expected a specific string to match, but did not get it.
    Is(Vec<u8>),
    /// Expected something, but *not* this.
    Not(Vec<u8>),
    /// Expected a digit with the given radix (10 and 16 are in use).
    Digit(u32),
    /// Expected an alphabetic character.
    Alpha,
    /// Expected an alphabetic or numeric character.
    AlphaNum,
    /// Expected whitespace, including newlines.
    Whitespace,
    /// Expected newlines.
    Newlines,
    /// Expected whitespace, not including newlines.
    WhitespaceNoNewlines,
    /// Expected nothing (end of input), but found something.
    Nothing,
    /// Expected something, anything, but found nothing.
    Anything,
}

impl View for ExpectedError {
    type V = ExpectedM;

    open spec fn view(&self) -> ExpectedM {
        match self {
            ExpectedError::Is(v) => ExpectedM::Is(v@),
            ExpectedError::Not(v) => ExpectedM::Not(v@),
            ExpectedError::Digit(r) => ExpectedM::Digit(*r),
            ExpectedError::Alpha => ExpectedM::Alpha,
            ExpectedError::AlphaNum => ExpectedM::AlphaNum,
            ExpectedError::Whitespace => ExpectedM::Whitespace,
            ExpectedError::Newlines => ExpectedM::Newlines,
            ExpectedError::WhitespaceNoNewlines => ExpectedM::WhitespaceNoNewlines,
            ExpectedError::Nothing => ExpectedM::Nothing,
            ExpectedError::Anything => ExpectedM::Anything,
        }
    }
}

/// The kind of error we are dealing with.
#[derive(Debug, PartialEq)]
pub enum ErrorKind {
    /// No error at all: the sentinel carried by a fresh state.
    Empty,
    /// A committed error: we went down this path and cannot go back.
    Committed(Box<Error>),
    /// Expected something specific.
    Expected(ExpectedError),
    /// Every alternative of an alternation failed, all at once.
    All(Vec<Error>),
    /// Errors accumulated one after another, possibly in different places.
    Sequence(Vec<Error>),
    /// A custom, user-domain error code.
    Custom(u64),
}

/// An error that occurred during parsing.
#[derive(Debug, PartialEq)]
pub struct Error {
    kind: ErrorKind,
    from: Span,
}

/// The model of an exec error.
pub closed spec fn err_view(e: Error) -> ErrorM
    decreases e,
{
    ErrorM { kind: kind_view(e.kind), from: e.from@ }
}

pub closed spec fn kind_view(k: ErrorKind) -> KindM
    decreases k,
{
    match k {
        ErrorKind::Empty => KindM::Empty,
        ErrorKind::Committed(e) => KindM::Committed(Box::new(err_view(*e))),
        ErrorKind::Expected(x) => KindM::Expected(x@),
        ErrorKind::All(es) => KindM::All(errs_view(es@)),
        ErrorKind::Sequence(es) => KindM::Sequence(errs_view(es@)),
        ErrorKind::Custom(c) => KindM::Custom(c),
    }
}

pub closed spec fn errs_view(es: Seq<Error>) -> Seq<ErrorM>
    decreases es,
{
    if es.len() == 0 {
        Seq::empty()
    } else {
        errs_view(es.drop_last()).push(err_view(es.last()))
    }
}

impl View for Error {
    type V = ErrorM;

    open spec fn view(&self) -> ErrorM {
        err_view(*self)
    }
}

impl View for ErrorKind {
    type V = KindM;

    open spec fn view(&self) -> KindM {
        kind_view(*self)
    }
}

/// The length of `errs_view` matches, and each element is the view of the
/// corresponding error.
pub proof fn lemma_errs_view(es: Seq<Error>)
    ensures
        errs_view(es).len() == es.len(),
        forall|i: int| 0 <= i < es.len() ==> errs_view(es)[i] == err_view(es[i]),
    decreases es,
{
    if es.len() > 0 {
        lemma_errs_view(es.drop_last());
    }
}

impl ErrorKind {
    /// Creates a new `expected` error kind.
    pub fn expected(expected: ExpectedError) -> (r: Self)
        ensures
            r@ == KindM::Expected(expected@),
    {
        Self::Expected(expected)
    }

    /// Creates a new `all` error kind.
    pub fn all(errors: Vec<Error>) -> (r: Self)
        ensures
            r@ == KindM::All(errs_view(errors@)),
    {
        Self::All(errors)
    }

    /// Creates a new `custom` error kind.
    pub fn custom(code: u64) -> (r: Self)
        ensures
            r@ == KindM::Custom(code),
    {
        Self::Custom(code)
    }
}

/// Adds with saturation at `usize::MAX`.
fn sat_add(a: usize, b: usize) -> (r: usize)
    ensures
        a + b <= usize::MAX ==> r == a + b,
        a + b > usize::MAX ==> r == usize::MAX,
{
    if a <= usize::MAX - b {
        a + b
    } else {
        usize::MAX
    }
}

impl Error {
    /// Creates a new `Error` of the given kind, covering the given span.
    pub fn new(kind: ErrorKind, from: Span) -> (r: Self)
        ensures
            r@ == (ErrorM { kind: kind@, from: from@ }),
    {
        Self { kind, from }
    }

    /// Creates an empty error covering the given span.
    pub fn empty(from: Span) -> (r: Self)
        ensures
            r@ == (ErrorM { kind: KindM::Empty, from: from@ }),
    {
        Self { kind: ErrorKind::Empty, from }
    }

    /// Commits this error: wraps it so alternation will not backtrack past
    /// it. Idempotent: a committed error is returned unchanged.
    pub fn commit(self) -> (r: Self)
        ensures
            r@ == self@.commit(),
    {
        if matches!(self.kind, ErrorKind::Committed(_)) {
            self
        } else {
            let from = self.from;
            Error { kind: ErrorKind::Committed(Box::new(self)), from }
        }
    }

    /// Checks whether this error is committed.
    pub fn is_committed(&self) -> (r: bool)
        ensures
            r == self@.is_committed(),
    {
        matches!(self.kind, ErrorKind::Committed(_))
    }

    /// Gets the span the error covers.
    pub fn from(&self) -> (r: Span)
        ensures
            r@ == self@.from,
    {
        self.from
    }

    /// Returns the number of leaf diagnostics, saturating at `usize::MAX`.
    pub fn len(&self) -> (n: usize)
        ensures
            self@.count() <= usize::MAX ==> n == self@.count(),
            self@.count() > usize::MAX ==> n == usize::MAX,
        decreases *self,
    {
        match &self.kind {
            ErrorKind::Empty => 0,
            ErrorKind::Committed(e) => e.len(),
            ErrorKind::Expected(_) => 1,
            ErrorKind::All(es) => Error::len_vec(es),
            ErrorKind::Sequence(es) => Error::len_vec(es),
            ErrorKind::Custom(_) => 1,
        }
    }

    /// Sums the counts of a list of errors, saturating at `usize::MAX`.
    fn len_vec(es: &Vec<Error>) -> (n: usize)
        ensures
            ErrorM::count_seq(errs_view(es@)) <= usize::MAX ==> n == ErrorM::count_seq(
                errs_view(es@),
            ),
            ErrorM::count_seq(errs_view(es@)) > usize::MAX ==> n == usize::MAX,
        decreases es@,
    {
        let mut n: usize = 0;
        let mut i: usize = 0;
        let ghost total = ErrorM::count_seq(errs_view(es@));
        while i < es.len()
            invariant
                0 <= i <= es@.len(),
                ErrorM::count_seq(errs_view(es@.take(i as int))) <= usize::MAX ==> n
                    == ErrorM::count_seq(errs_view(es@.take(i as int))),
                ErrorM::count_seq(errs_view(es@.take(i as int))) > usize::MAX ==> n == usize::MAX,
            decreases es@.len() - i,
        {
            proof {
                assert(decreases_to!(es@ => es@[i as int]));
            }
            let c = es[i].len();
            n = sat_add(n, c);
            proof {
                lemma_errs_view_take_push(es@, i as int);
                let s1 = errs_view(es@.take(i as int));
                let e1 = err_view(es@[i as int]);
                assert(s1.push(e1).drop_last() =~= s1);
                assert(s1.push(e1).last() == e1);
                assert(ErrorM::count_seq(s1.push(e1)) == ErrorM::count_seq(s1) + e1.count());
            }
            i = i + 1;
        }
        proof {
            assert(es@.take(es@.len() as int) =~= es@);
        }
        n
    }

    /// Checks whether this error holds no diagnostics at all.
    pub fn is_empty(&self) -> (r: bool)
        ensures
            r == self@.is_empty(),
    {
        self.len() == 0
    }

    /// Appends an error: an empty error is replaced outright, a sequence
    /// grows by one, and anything else becomes a two-element sequence.
    pub fn push(&mut self, error: Error)
        ensures
            final(self)@ == old(self)@.push(error@),
    {
        let mut prev = Error::empty(Span::new(0, 0));
        core::mem::swap(self, &mut prev);
        match prev.kind {
            ErrorKind::Empty => {
                *self = error;
            },
            ErrorKind::Sequence(mut es) => {
                let from = prev.from.union_between(error.from);
                proof {
                    lemma_errs_view_push(es@, error);
                }
                es.push(error);
                *self = Error { kind: ErrorKind::Sequence(es), from };
            },
            k => {
                let whole = Error { kind: k, from: prev.from };
                let from = whole.from.union_between(error.from);
                let mut es: Vec<Error> = Vec::new();
                proof {
                    lemma_errs_view_push(es@, whole);
                }
                es.push(whole);
                proof {
                    lemma_errs_view_push(es@, error);
                }
                es.push(error);
                assert(errs_view(es@) =~= seq![err_view(es@[0]), err_view(es@[1])]);
                *self = Error { kind: ErrorKind::Sequence(es), from };
            },
        }
    }
}

impl Clone for ExpectedError {
    /// Clones the diagnostic, keeping its model.
    fn clone(&self) -> (r: Self)
        ensures
            r@ == self@,
    {
        match self {
            ExpectedError::Is(v) => ExpectedError::Is(crate::input::copy_range_all(v)),
            ExpectedError::Not(v) => ExpectedError::Not(crate::input::copy_range_all(v)),
            ExpectedError::Digit(radix) => ExpectedError::Digit(*radix),
            ExpectedError::Alpha => ExpectedError::Alpha,
            ExpectedError::AlphaNum => ExpectedError::AlphaNum,
            ExpectedError::Whitespace => ExpectedError::Whitespace,
            ExpectedError::Newlines => ExpectedError::Newlines,
            ExpectedError::WhitespaceNoNewlines => ExpectedError::WhitespaceNoNewlines,
            ExpectedError::Nothing => ExpectedError::Nothing,
            ExpectedError::Anything => ExpectedError::Anything,
        }
    }
}

impl Clone for Error {
    /// Clones the error, keeping its model.
    fn clone(&self) -> (r: Self)
        ensures
            r@ == self@,
        decreases *self,
    {
        Error { kind: self.kind.clone(), from: self.from }
    }
}

impl Clone for ErrorKind {
    /// Clones the kind, keeping its model.
    fn clone(&self) -> (r: Self)
        ensures
            r@ == self@,
        decreases *self,
    {
        match self {
            ErrorKind::Empty => ErrorKind::Empty,
            ErrorKind::Committed(e) => ErrorKind::Committed(Box::new((**e).clone())),
            ErrorKind::Expected(x) => ErrorKind::Expected(x.clone()),
            ErrorKind::All(es) => ErrorKind::All(clone_errs(es)),
            ErrorKind::Sequence(es) => ErrorKind::Sequence(clone_errs(es)),
            ErrorKind::Custom(c) => ErrorKind::Custom(*c),
        }
    }
}

/// Clones a list of errors, keeping its model.
fn clone_errs(es: &Vec<Error>) -> (r: Vec<Error>)
    ensures
        errs_view(r@) == errs_view(es@),
    decreases es@,
{
    let mut out: Vec<Error> = Vec::new();
    let mut i: usize = 0;
    while i < es.len()
        invariant
            0 <= i <= es@.len(),
            errs_view(out@) == errs_view(es@.take(i as int)),
        decreases es@.len() - i,
    {
        proof {
            assert(decreases_to!(es@ => es@[i as int]));
        }
        let c = es[i].clone();
        proof {
            lemma_errs_view_push(out@, c);
            lemma_errs_view_take_push(es@, i as int);
        }
        out.push(c);
        i = i + 1;
    }
    proof {
        assert(es@.take(es@.len() as int) =~= es@);
    }
    out
}

/// Appending one error to a list appends its view to the list's view.
pub proof fn lemma_errs_view_push(es: Seq<Error>, e: Error)
    ensures
        errs_view(es.push(e)) == errs_view(es).push(err_view(e)),
{
    assert(es.push(e).drop_last() =~= es);
    assert(es.push(e).last() == e);
}

/// Taking one more element extends the viewed prefix by one view.
proof fn lemma_errs_view_take_push(es: Seq<Error>, i: int)
    requires
        0 <= i < es.len(),
    ensures
        errs_view(es.take(i + 1)) == errs_view(es.take(i)).push(err_view(es[i])),
{
    assert(es.take(i + 1).drop_last() =~= es.take(i));
    assert(es.take(i + 1).last() == es[i]);
}

} // verus!
