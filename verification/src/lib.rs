//! A parser-combinator toolkit: a zero-copy cursor over an immutable byte
//! buffer, span arithmetic, a composable error model that survives
//! backtracking, a small algebra of combinators (sequencing, alternation,
//! repetition, commit/recovery), and an operator-precedence (Pratt)
//! expression engine driven by operator tables.
//!
//! Every executable function is verified against a mathematical model: spans
//! and cursors are modelled as integer ranges over a byte sequence, and the
//! combinators are interpreted by a total specification function (`run`)
//! that pins down the state and output of every parse, on success and on
//! failure alike.

pub mod combinators;
pub mod errors;
pub mod input;
pub mod laws;
pub mod parser;
pub mod pratt;
pub mod semantics;
pub mod span;
pub mod state;
