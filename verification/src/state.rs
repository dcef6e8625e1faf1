//! The parser state: the input cursor together with the error accumulated
//! so far. Every mutator returns a new state; forks are independent.

use crate::errors::{Error, ErrorM, KindM};
use crate::input::{Input, InputM};
use crate::span::SpanM;
use vstd::prelude::*;

verus! {

/// Mathematical model of a parser state.
pub struct StateM {
    pub input: InputM,
    pub error: ErrorM,
}

impl StateM {
    /// Length of the input still visible to the parser.
    pub open spec fn wlen(self) -> int {
        self.input.len()
    }

    /// A fresh state over the given bytes: the window covers everything
    /// and no error is recorded.
    pub open spec fn fresh(bytes: Seq<u8>) -> StateM {
        StateM {
            input: InputM { bytes: bytes, span: SpanM { head: 0, tail: bytes.len() as int } },
            error: ErrorM {
                kind: KindM::Empty,
                from: SpanM { head: 0, tail: bytes.len() as int },
            },
        }
    }

    /// The state with the given error appended.
    pub open spec fn with_error(self, e: ErrorM) -> StateM {
        StateM { input: self.input, error: self.error.push(e) }
    }

    /// The state with its input replaced.
    pub open spec fn with_input(self, input: InputM) -> StateM {
        StateM { input: input, error: self.error }
    }
}

/// The state a parser runs over: the current input and the errors recorded
/// so far.
#[derive(Debug)]
pub struct State {
    input: Input,
    error: Error,
}

impl View for State {
    type V = StateM;

    closed spec fn view(&self) -> StateM {
        StateM { input: self.input@, error: self.error@ }
    }
}

impl State {
    /// Creates a fresh `State` over the given bytes, with an empty error.
    pub fn new(input: Vec<u8>) -> (r: Self)
        ensures
            r@ == StateM::fresh(input@),
    {
        let input = Input::new(input);
        let sp = input.span();
        Self { error: Error::empty(sp), input }
    }

    /// Checks if any error has been recorded.
    pub fn is_err(&self) -> (r: bool)
        ensures
            r == !self@.error.is_empty(),
    {
        !self.error.is_empty()
    }

    /// Gets the errors that occurred during parsing.
    pub fn errors(&self) -> (r: &Error)
        ensures
            r@ == self@.error,
    {
        &self.error
    }

    /// Appends an error to the recorded errors.
    pub fn with_error(self, error: Error) -> (r: Self)
        ensures
            r@ == self@.with_error(error@),
    {
        let mut s = self;
        s.error.push(error);
        s
    }

    /// Forks the state: an independent copy over the same bytes.
    pub fn fork(&self) -> (r: Self)
        ensures
            r@ == self@,
    {
        Self { error: self.error.clone(), input: self.input.fork() }
    }

    /// Gets the input.
    pub fn as_input(&self) -> (r: &Input)
        ensures
            r@ == self@.input,
    {
        &self.input
    }

    /// Replaces the input.
    pub fn with_input(self, input: Input) -> (r: Self)
        ensures
            r@ == self@.with_input(input@),
    {
        Self { input, error: self.error }
    }

    /// Builds a state from an input and an error.
    pub(crate) fn assemble(input: Input, error: Error) -> (r: Self)
        ensures
            r@ == (StateM { input: input@, error: error@ }),
    {
        Self { input, error }
    }

    /// Splits the state into its input and its error.
    pub fn into_parts(self) -> (r: (Input, Error))
        ensures
            r.0@ == self@.input,
            r.1@ == self@.error,
    {
        (self.input, self.error)
    }
}

} // verus!
