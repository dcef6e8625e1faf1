//! The combinator constructors: each function builds the parser tree node
//! whose meaning is given by [`crate::semantics::run`].

use crate::parser::{parsers_view, Parser, ParserM};
use vstd::prelude::*;

verus! {

/// Parses an input if it matches the given bytes, and returns the matched
/// region. On a mismatch the error spans the matched prefix plus the
/// offending glyph; at the end of input it is the empty span at the
/// exhaustion point.
pub fn is(matches: Vec<u8>) -> (r: Parser)
    ensures
        r@ == ParserM::Is(matches@),
{
    Parser::Is(matches)
}

/// Inverts a parser: succeeds, consuming nothing, exactly when the parser
/// fails; fails, reporting what was found, when it succeeds.
pub fn not(p: Parser) -> (r: Parser)
    ensures
        r@ == ParserM::Not(Box::new(p@)),
{
    Parser::Not(Box::new(p))
}

/// The identity parser: consumes everything and returns it all.
pub fn id() -> (r: Parser)
    ensures
        r@ == ParserM::Id,
{
    Parser::Id
}

/// Parses the end of input.
pub fn eoi() -> (r: Parser)
    ensures
        r@ == ParserM::Eoi,
{
    Parser::Eoi
}

/// Takes `n` glyphs from the input and returns them; fails if fewer are
/// left.
pub fn take(n: usize) -> (r: Parser)
    ensures
        r@ == ParserM::Take(n as int),
{
    Parser::Take(n)
}

/// Takes glyphs until `until` matches; the match itself is consumed and
/// returned alongside the skipped region. Reaching the end of input first
/// is an error.
pub fn take_until(until: Parser) -> (r: Parser)
    ensures
        r@ == ParserM::TakeUntil(Box::new(until@)),
{
    Parser::TakeUntil(Box::new(until))
}

/// Parses a single decimal digit.
pub fn decimal_digit() -> (r: Parser)
    ensures
        r@ == ParserM::DecimalDigit,
{
    Parser::DecimalDigit
}

/// Parses a run of one or more decimal digits.
pub fn decimal() -> (r: Parser)
    ensures
        r@ == ParserM::Decimal,
{
    Parser::Decimal
}

/// Parses a single hexadecimal digit.
pub fn hexadecimal_digit() -> (r: Parser)
    ensures
        r@ == ParserM::HexadecimalDigit,
{
    Parser::HexadecimalDigit
}

/// Parses a run of one or more hexadecimal digits.
pub fn hexadecimal() -> (r: Parser)
    ensures
        r@ == ParserM::Hexadecimal,
{
    Parser::Hexadecimal
}

/// Parses a single alphabetic character.
pub fn alphabetic_char() -> (r: Parser)
    ensures
        r@ == ParserM::AlphabeticChar,
{
    Parser::AlphabeticChar
}

/// Parses a run of one or more alphabetic characters.
pub fn alphabetic() -> (r: Parser)
    ensures
        r@ == ParserM::Alphabetic,
{
    Parser::Alphabetic
}

/// Parses a single alphanumeric character.
pub fn alphanumeric_char() -> (r: Parser)
    ensures
        r@ == ParserM::AlphanumericChar,
{
    Parser::AlphanumericChar
}

/// Parses a run of one or more alphanumeric characters.
pub fn alphanumeric() -> (r: Parser)
    ensures
        r@ == ParserM::Alphanumeric,
{
    Parser::Alphanumeric
}

/// Parses a run of one or more whitespace glyphs, newlines included.
pub fn whitespace() -> (r: Parser)
    ensures
        r@ == ParserM::Whitespace,
{
    Parser::Whitespace
}

/// Parses a run of one or more whitespace glyphs, stopping at newlines.
pub fn whitespace_not_newline() -> (r: Parser)
    ensures
        r@ == ParserM::WhitespaceNotNewline,
{
    Parser::WhitespaceNotNewline
}

/// Parses a run of one or more newlines (a carriage return counts only
/// together with a following line feed).
pub fn newlines() -> (r: Parser)
    ensures
        r@ == ParserM::Newlines,
{
    Parser::Newlines
}

/// Applies two parsers in sequence and pairs their outputs.
pub fn then(first: Parser, second: Parser) -> (r: Parser)
    ensures
        r@ == ParserM::Then(Box::new(first@), Box::new(second@)),
{
    Parser::Then(Box::new(first), Box::new(second))
}

/// Tries the given parsers in order on forks of the same state: the first
/// success wins. If one fails with a committed error the alternation stops
/// there; if all fail, every branch's error is reported at once.
pub fn any(ps: Vec<Parser>) -> (r: Parser)
    ensures
        r@ == ParserM::Any(parsers_view(ps@)),
{
    Parser::Any(ps)
}

/// Marks failures of the parser as committed, so that an enclosing
/// alternation will not try further branches. Committing twice does not
/// nest.
pub fn commit(p: Parser) -> (r: Parser)
    ensures
        r@ == ParserM::Commit(Box::new(p@)),
{
    Parser::Commit(Box::new(p))
}

/// Runs the parser whether or not it succeeds: its output when it does,
/// an absent output — with the state untouched — when it does not.
pub fn maybe(p: Parser) -> (r: Parser)
    ensures
        r@ == ParserM::Maybe(Box::new(p@)),
{
    Parser::Maybe(Box::new(p))
}

/// Parses as many repetitions of the parser as possible; never fails. An
/// iteration that consumes nothing ends the repetition.
pub fn many(p: Parser) -> (r: Parser)
    ensures
        r@ == ParserM::Many(Box::new(p@)),
{
    Parser::Many(Box::new(p))
}

/// Parses exactly `n` repetitions; a failure before the `n`th propagates.
pub fn many_n(n: usize, p: Parser) -> (r: Parser)
    ensures
        r@ == ParserM::ManyN(n as int, Box::new(p@)),
{
    Parser::ManyN(n, Box::new(p))
}

/// Parses between `m` and `n` repetitions: failures below the minimum
/// propagate, failures beyond it just stop the repetition.
pub fn many_m_n(m: usize, n: usize, p: Parser) -> (r: Parser)
    ensures
        r@ == ParserM::ManyMN(m as int, n as int, Box::new(p@)),
{
    Parser::ManyMN(m, n, Box::new(p))
}

/// Parses repetitions of `p` until `until` matches, returning the
/// collected outputs together with `until`'s output.
pub fn many_until(p: Parser, until: Parser) -> (r: Parser)
    ensures
        r@ == ParserM::ManyUntil(Box::new(p@), Box::new(until@)),
{
    Parser::ManyUntil(Box::new(p), Box::new(until))
}

/// Parses a list of `p` separated by `sep`, dropping the separators. With
/// `ignore_dangling` a trailing separator is consumed and ignored;
/// without it, the missing item after a trailing separator is an error.
pub fn separated(p: Parser, sep: Parser, ignore_dangling: bool) -> (r: Parser)
    ensures
        r@ == ParserM::Separated(Box::new(p@), Box::new(sep@), ignore_dangling),
{
    Parser::Separated(Box::new(p), Box::new(sep), ignore_dangling)
}

/// Parses `parser` between `open` and `close`, keeping only the middle
/// output.
pub fn between(open: Parser, parser: Parser, close: Parser) -> (r: Parser)
    ensures
        r@ == ParserM::Between(Box::new(open@), Box::new(parser@), Box::new(close@)),
{
    Parser::Between(Box::new(open), Box::new(parser), Box::new(close))
}

/// Panic-mode recovery: runs `p`; on failure, consumes input up to and
/// through the first match of `until` and succeeds with an absent output,
/// keeping the original error in the state for the caller to inspect.
pub fn panic_recover(p: Parser, until: Parser) -> (r: Parser)
    ensures
        r@ == ParserM::PanicRecover(Box::new(p@), Box::new(until@)),
{
    Parser::PanicRecover(Box::new(p), Box::new(until))
}

/// Returns the region of input the parser consumed, instead of its
/// output.
pub fn consumed(p: Parser) -> (r: Parser)
    ensures
        r@ == ParserM::Consumed(Box::new(p@)),
{
    Parser::Consumed(Box::new(p))
}

/// The parser wrapped in optional whitespace on both ends.
pub fn whitespace_wrapped(p: Parser) -> (r: Parser)
    ensures
        r@ == ParserM::Between(
            Box::new(ParserM::Maybe(Box::new(ParserM::Whitespace))),
            Box::new(p@),
            Box::new(ParserM::Maybe(Box::new(ParserM::Whitespace))),
        ),
{
    between(maybe(whitespace()), p, maybe(whitespace()))
}

/// The parser wrapped in optional non-newline whitespace on both ends.
pub fn whitespace_not_newline_wrapped(p: Parser) -> (r: Parser)
    ensures
        r@ == ParserM::Between(
            Box::new(ParserM::Maybe(Box::new(ParserM::WhitespaceNotNewline))),
            Box::new(p@),
            Box::new(ParserM::Maybe(Box::new(ParserM::WhitespaceNotNewline))),
        ),
{
    between(
        maybe(whitespace_not_newline()),
        p,
        maybe(whitespace_not_newline()),
    )
}

} // verus!
