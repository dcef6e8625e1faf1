//! The meaning of a parser: a total specification interpreter `run` that
//! maps a parser and a state to the resulting state and output (or the
//! failing state), together with the glyph-class predicates the leaf
//! recognizers scan by.
//!
//! Repetition combinators stop (or fail, for `ManyUntil`) on an iteration
//! that consumes no input, so that every parse terminates; this is the one
//! place the library is deliberately stricter than a naive repetition
//! loop, which would spin forever on a zero-consuming sub-parser.

use crate::errors::{ErrorM, ExpectedM, KindM};
use crate::input::InputM;
use crate::parser::{bound_nat, psize, psize_seq, OutputM, ParserM};
use crate::span::SpanM;
use crate::state::StateM;
use vstd::prelude::*;

verus! {

/// Decimal digits `0` to `9`.
pub open spec fn is_digit_byte(b: u8) -> bool {
    48 <= b <= 57
}

/// Hexadecimal digits `0-9`, `A-F`, `a-f`.
pub open spec fn is_hex_digit_byte(b: u8) -> bool {
    is_digit_byte(b) || (65 <= b <= 70) || (97 <= b <= 102)
}

/// ASCII letters.
pub open spec fn is_alpha_byte(b: u8) -> bool {
    (65 <= b <= 90) || (97 <= b <= 122)
}

/// ASCII letters and decimal digits.
pub open spec fn is_alphanum_byte(b: u8) -> bool {
    is_alpha_byte(b) || is_digit_byte(b)
}

/// ASCII whitespace: space, tab, newline, form feed, carriage return.
pub open spec fn is_ascii_ws_byte(b: u8) -> bool {
    b == 32 || b == 9 || b == 10 || b == 12 || b == 13
}

/// The classes of glyphs the leaf recognizers scan runs of.
#[derive(Clone, Copy, Debug, PartialEq, Eq, Structural)]
pub enum GlyphClass {
    Digit10,
    Digit16,
    Alpha,
    AlphaNum,
    Ws,
    WsNoNl,
    Nl,
}

/// Whether the scan of class `cls` continues at absolute position `pos`.
/// A carriage return counts as a newline only when a line feed follows.
pub open spec fn class_continues(i: InputM, pos: int, cls: GlyphClass) -> bool {
    match i.at(pos) {
        Option::None => false,
        Option::Some(b) => match cls {
            GlyphClass::Digit10 => is_digit_byte(b),
            GlyphClass::Digit16 => is_hex_digit_byte(b),
            GlyphClass::Alpha => is_alpha_byte(b),
            GlyphClass::AlphaNum => is_alphanum_byte(b),
            GlyphClass::Ws => is_ascii_ws_byte(b),
            GlyphClass::WsNoNl => is_ascii_ws_byte(b) && b != 10 && !(b == 13 && i.at(pos + 1)
                == Some(10u8)),
            GlyphClass::Nl => b == 10 || (b == 13 && i.at(pos + 1) == Some(10u8)),
        },
    }
}

/// Number of consecutive glyphs of class `cls` starting `k` glyphs into
/// the window.
pub open spec fn scan_len(i: InputM, cls: GlyphClass, k: int) -> int
    decreases i.len() - k,
        when 0 <= k
{
    if class_continues(i, i.span.head + k, cls) {
        1 + scan_len(i, cls, k + 1)
    } else {
        0
    }
}

/// The outcome of matching a literal against the window: a full match, a
/// mismatch after `k` matched glyphs, or exhaustion after `k` glyphs.
pub enum ScanIs {
    Hit,
    Mismatch(int),
    End(int),
}

/// Matches `m[k..]` against the window starting `k` glyphs in.
pub open spec fn is_scan(i: InputM, m: Seq<u8>, k: int) -> ScanIs
    decreases m.len() - k,
        when 0 <= k <= m.len()
{
    if k >= m.len() {
        ScanIs::Hit
    } else {
        match i.at(i.span.head + k) {
            Option::None => ScanIs::End(k),
            Option::Some(b) => if b == m[k] {
                is_scan(i, m, k + 1)
            } else {
                ScanIs::Mismatch(k)
            },
        }
    }
}

/// The state with an expected-kind error appended.
pub open spec fn expected(st: StateM, x: ExpectedM, from: SpanM) -> StateM {
    st.with_error(ErrorM { kind: KindM::Expected(x), from })
}

/// The span of an alternation failure: the union of every branch's span,
/// folded left, spanning over gaps.
pub open spec fn spans_union(es: Seq<ErrorM>) -> SpanM
    decreases es,
{
    if es.len() == 0 {
        SpanM { head: 0, tail: 0 }
    } else if es.len() == 1 {
        es[0].from
    } else {
        spans_union(es.drop_last()).union(es.last().from)
    }
}

/// The outcome of trying a list of alternatives: the first success, a
/// committed failure that stops the search, or the errors of every branch.
pub enum AltM {
    Win(StateM, OutputM),
    Halt(StateM),
    Fails(Seq<ErrorM>),
}

/// What a parser does to a state: the new state and output on success, or
/// the state carrying the error on failure. Total: defined for every
/// parser and every state.
pub open spec fn run(p: ParserM, st: StateM) -> Result<(StateM, OutputM), StateM>
    decreases st.wlen(), psize(p), 1int,
{
    match p {
        ParserM::Is(m) => match is_scan(st.input, m, 0) {
            ScanIs::Hit => Ok(
                (
                    st.with_input(st.input.skip(m.len() as int)),
                    OutputM::Matched(st.input.take(m.len() as int)),
                ),
            ),
            ScanIs::Mismatch(k) => Err(
                expected(
                    st.with_input(st.input.skip(k)),
                    ExpectedM::Is(m),
                    st.input.take(k + 1).span,
                ),
            ),
            ScanIs::End(k) => Err(
                expected(
                    st.with_input(st.input.skip(k)),
                    ExpectedM::Is(m),
                    st.input.skip(k).span,
                ),
            ),
        },
        ParserM::Not(q) => match run(*q, st) {
            Ok((s1, _o)) => Err(
                expected(
                    st,
                    ExpectedM::Not(st.input.subtract(s1.input).window()),
                    st.input.subtract(s1.input).span,
                ),
            ),
            Err(_) => Ok((st, OutputM::Unit)),
        },
        ParserM::Id => Ok((st.with_input(st.input.skip_all()), OutputM::Matched(st.input))),
        ParserM::Eoi => if st.input.len() == 0 {
            Ok((st, OutputM::Unit))
        } else {
            Err(expected(st, ExpectedM::Nothing, st.input.span))
        },
        ParserM::Take(n) => if 0 <= n <= st.input.len() {
            Ok((st.with_input(st.input.skip(n)), OutputM::Matched(st.input.take(n))))
        } else {
            Err(
                expected(
                    st.with_input(st.input.skip_all()),
                    ExpectedM::Anything,
                    st.input.skip_all().span,
                ),
            )
        },
        ParserM::TakeUntil(u) => run_take_until(*u, st, st.input.span.head),
        ParserM::DecimalDigit => run_class(st, GlyphClass::Digit10, false),
        ParserM::Decimal => run_class(st, GlyphClass::Digit10, true),
        ParserM::HexadecimalDigit => run_class(st, GlyphClass::Digit16, false),
        ParserM::Hexadecimal => run_class(st, GlyphClass::Digit16, true),
        ParserM::AlphabeticChar => run_class(st, GlyphClass::Alpha, false),
        ParserM::Alphabetic => run_class(st, GlyphClass::Alpha, true),
        ParserM::AlphanumericChar => run_class(st, GlyphClass::AlphaNum, false),
        ParserM::Alphanumeric => run_class(st, GlyphClass::AlphaNum, true),
        ParserM::Whitespace => run_class(st, GlyphClass::Ws, true),
        ParserM::WhitespaceNotNewline => run_class(st, GlyphClass::WsNoNl, true),
        ParserM::Newlines => run_class(st, GlyphClass::Nl, true),
        ParserM::Then(a, b) => match run(*a, st) {
            Err(s) => Err(s),
            Ok((s1, o1)) => if s1.wlen() <= st.wlen() {
                match run(*b, s1) {
                    Err(s) => Err(s),
                    Ok((s2, o2)) => Ok((s2, OutputM::Pair(Box::new(o1), Box::new(o2)))),
                }
            } else {
                Err(st)
            },
        },
        ParserM::Any(ps) => match run_alt(ps, st) {
            AltM::Win(s, o) => Ok((s, o)),
            AltM::Halt(s) => Err(s),
            AltM::Fails(es) => Err(
                st.with_error(ErrorM { kind: KindM::All(es), from: spans_union(es) }),
            ),
        },
        ParserM::Commit(q) => match run(*q, st) {
            Ok(r) => Ok(r),
            Err(s) => Err(StateM { input: s.input, error: s.error.commit() }),
        },
        ParserM::Maybe(q) => match run(*q, st) {
            Ok((s, o)) => Ok((s, OutputM::Maybe(Some(Box::new(o))))),
            Err(_) => Ok((st, OutputM::Maybe(None))),
        },
        ParserM::Many(q) => {
            let (s, os) = run_many(*q, st);
            Ok((s, OutputM::List(os)))
        },
        ParserM::ManyN(n, q) => match run_many_n(*q, n, st) {
            Ok((s, os)) => Ok((s, OutputM::List(os))),
            Err(s) => Err(s),
        },
        ParserM::ManyMN(m, n, q) => match run_many_mn(*q, m, n, st) {
            Ok((s, os)) => Ok((s, OutputM::List(os))),
            Err(s) => Err(s),
        },
        ParserM::ManyUntil(a, b) => match run_many_until(*a, *b, st) {
            Ok((s, os, ou)) => Ok(
                (s, OutputM::Pair(Box::new(OutputM::List(os)), Box::new(ou))),
            ),
            Err(s) => Err(s),
        },
        ParserM::Separated(a, b, dangling) => match run(*a, st) {
            Err(s) => Err(s),
            Ok((s1, o1)) => if s1.wlen() <= st.wlen() {
                match run_sep_tail(*a, *b, dangling, s1) {
                    Ok((sf, os)) => Ok((sf, OutputM::List(seq![o1] + os))),
                    Err(sf) => Err(sf),
                }
            } else {
                Err(st)
            },
        },
        ParserM::Between(a, b, c) => match run(*a, st) {
            Err(s) => Err(s),
            Ok((s1, _o1)) => if s1.wlen() <= st.wlen() {
                match run(*b, s1) {
                    Err(s) => Err(s),
                    Ok((s2, o2)) => if s2.wlen() <= st.wlen() {
                        match run(*c, s2) {
                            Err(s) => Err(s),
                            Ok((s3, _o3)) => Ok((s3, o2)),
                        }
                    } else {
                        Err(st)
                    },
                }
            } else {
                Err(st)
            },
        },
        ParserM::PanicRecover(a, b) => match run(*a, st) {
            Ok((s, o)) => Ok((s, OutputM::Maybe(Some(Box::new(o))))),
            Err(se) => if se.wlen() <= st.wlen() {
                match run_take_until(*b, se, se.input.span.head) {
                    Ok((s2, _taken)) => Ok((s2, OutputM::Maybe(None))),
                    Err(s2) => Err(s2),
                }
            } else {
                Err(st)
            },
        },
        ParserM::Consumed(q) => match run(*q, st) {
            Err(s) => Err(s),
            Ok((s1, _o)) => Ok((s1, OutputM::Matched(st.input.subtract(s1.input)))),
        },
    }
}

/// A single glyph-class recognizer (`full` false) or a run of one or more
/// glyphs of the class (`full` true).
pub open spec fn run_class(st: StateM, cls: GlyphClass, full: bool) -> Result<
    (StateM, OutputM),
    StateM,
> {
    let k = if full {
        scan_len(st.input, cls, 0)
    } else {
        if class_continues(st.input, st.input.span.head, cls) {
            1int
        } else {
            0int
        }
    };
    if k >= 1 {
        Ok((st.with_input(st.input.skip(k)), OutputM::Matched(st.input.take(k))))
    } else {
        Err(expected(st, class_expected(cls), st.input.take(1).span))
    }
}

/// The diagnostic reported when a glyph-class recognizer fails.
pub open spec fn class_expected(cls: GlyphClass) -> ExpectedM {
    match cls {
        GlyphClass::Digit10 => ExpectedM::Digit(10),
        GlyphClass::Digit16 => ExpectedM::Digit(16),
        GlyphClass::Alpha => ExpectedM::Alpha,
        GlyphClass::AlphaNum => ExpectedM::AlphaNum,
        GlyphClass::Ws => ExpectedM::Whitespace,
        GlyphClass::WsNoNl => ExpectedM::WhitespaceNoNewlines,
        GlyphClass::Nl => ExpectedM::Newlines,
    }
}

/// Tries the alternatives in order on the same starting state: the first
/// success wins; a committed failure stops the search; otherwise every
/// branch's error is collected.
pub open spec fn run_alt(ps: Seq<ParserM>, st: StateM) -> AltM
    decreases st.wlen(), psize_seq(ps), 0int,
{
    if ps.len() == 0 {
        AltM::Fails(Seq::empty())
    } else {
        match run(ps[0], st) {
            Ok((s, o)) => AltM::Win(s, o),
            Err(s) => if s.error.is_committed() {
                AltM::Halt(s)
            } else {
                match run_alt(ps.drop_first(), st) {
                    AltM::Win(s2, o2) => AltM::Win(s2, o2),
                    AltM::Halt(s2) => AltM::Halt(s2),
                    AltM::Fails(es) => AltM::Fails(seq![s.error] + es),
                }
            },
        }
    }
}

/// Consumes glyphs one at a time until `u` matches; returns the state
/// after `u`, the skipped region (from `h0` to the match), and `u`'s
/// output. Fails at the end of the window.
pub open spec fn run_take_until(u: ParserM, st: StateM, h0: int) -> Result<
    (StateM, OutputM),
    StateM,
>
    decreases st.wlen(), psize(u) + 1, 0int,
{
    match run(u, st) {
        Ok((su, ou)) => Ok(
            (
                su,
                OutputM::Pair(
                    Box::new(
                        OutputM::Matched(
                            InputM {
                                bytes: st.input.bytes,
                                span: SpanM { head: h0, tail: st.input.span.head },
                            },
                        ),
                    ),
                    Box::new(ou),
                ),
            ),
        ),
        Err(_) => if st.wlen() == 0 {
            Err(
                expected(
                    st,
                    ExpectedM::Anything,
                    SpanM { head: st.input.span.tail, tail: st.input.span.tail },
                ),
            )
        } else {
            run_take_until(u, st.with_input(st.input.skip(1)), h0)
        },
    }
}

/// Repeats `q` until it fails or stops consuming; never fails itself.
pub open spec fn run_many(q: ParserM, st: StateM) -> (StateM, Seq<OutputM>)
    decreases st.wlen(), psize(q) + 1, 0int,
{
    match run(q, st) {
        Err(_) => (st, Seq::empty()),
        Ok((s1, o1)) => if s1.wlen() < st.wlen() {
            let (sf, os) = run_many(q, s1);
            (sf, seq![o1] + os)
        } else {
            (st, Seq::empty())
        },
    }
}

/// Repeats `q` exactly `n` times; the first failure is the failure of the
/// whole.
pub open spec fn run_many_n(q: ParserM, n: int, st: StateM) -> Result<
    (StateM, Seq<OutputM>),
    StateM,
>
    decreases st.wlen(), bound_nat(n) * (1 + psize(q)), 0int,
{
    if n <= 0 {
        Ok((st, Seq::empty()))
    } else {
        proof {
            vstd::arithmetic::mul::lemma_mul_inequality(
                2,
                bound_nat(n) as int,
                (1 + psize(q)) as int,
            );
            vstd::arithmetic::mul::lemma_mul_strict_inequality(
                bound_nat(n - 1) as int,
                bound_nat(n) as int,
                (1 + psize(q)) as int,
            );
        }
        match run(q, st) {
            Err(s) => Err(s),
            Ok((s1, o1)) => if s1.wlen() <= st.wlen() {
                match run_many_n(q, n - 1, s1) {
                    Ok((sf, os)) => Ok((sf, seq![o1] + os)),
                    Err(sf) => Err(sf),
                }
            } else {
                Err(st)
            },
        }
    }
}

/// Repeats `q` at least `m` and at most `n` times: failures below the
/// minimum propagate; beyond it, failure or zero consumption stops the
/// repetition.
pub open spec fn run_many_mn(q: ParserM, m: int, n: int, st: StateM) -> Result<
    (StateM, Seq<OutputM>),
    StateM,
>
    decreases st.wlen(), bound_nat(if m >= n { m } else { n }) * (1 + psize(q)), 0int,
{
    if m > 0 {
        proof {
            let top = if m >= n {
                m
            } else {
                n
            };
            vstd::arithmetic::mul::lemma_mul_inequality(
                2,
                bound_nat(top) as int,
                (1 + psize(q)) as int,
            );
            vstd::arithmetic::mul::lemma_mul_strict_inequality(
                bound_nat(top - 1) as int,
                bound_nat(top) as int,
                (1 + psize(q)) as int,
            );
        }
        match run(q, st) {
            Err(s) => Err(s),
            Ok((s1, o1)) => if s1.wlen() <= st.wlen() {
                match run_many_mn(
                    q,
                    m - 1,
                    if n >= 1 {
                        n - 1
                    } else {
                        0
                    },
                    s1,
                ) {
                    Ok((sf, os)) => Ok((sf, seq![o1] + os)),
                    Err(sf) => Err(sf),
                }
            } else {
                Err(st)
            },
        }
    } else if n <= 0 {
        Ok((st, Seq::empty()))
    } else {
        proof {
            vstd::arithmetic::mul::lemma_mul_inequality(
                2,
                bound_nat(if m >= n {
                    m
                } else {
                    n
                }) as int,
                (1 + psize(q)) as int,
            );
        }
        match run(q, st) {
            Err(_) => Ok((st, Seq::empty())),
            Ok((s1, o1)) => if s1.wlen() < st.wlen() {
                match run_many_mn(q, 0, n - 1, s1) {
                    Ok((sf, os)) => Ok((sf, seq![o1] + os)),
                    Err(sf) => Err(sf),
                }
            } else {
                Ok((st, Seq::empty()))
            },
        }
    }
}

/// Repeats `p` until `u` matches; `u` is tried first at every step. An
/// iteration of `p` that consumes nothing fails, so that the repetition
/// terminates.
pub open spec fn run_many_until(p: ParserM, u: ParserM, st: StateM) -> Result<
    (StateM, Seq<OutputM>, OutputM),
    StateM,
>
    decreases st.wlen(), psize(p) + psize(u) + 1, 0int,
{
    match run(u, st) {
        Ok((su, ou)) => Ok((su, Seq::empty(), ou)),
        Err(_) => match run(p, st) {
            Err(s) => Err(s),
            Ok((s1, o1)) => if s1.wlen() < st.wlen() {
                match run_many_until(p, u, s1) {
                    Ok((sf, os, ou)) => Ok((sf, seq![o1] + os, ou)),
                    Err(sf) => Err(sf),
                }
            } else {
                Err(expected(s1, ExpectedM::Anything, s1.input.take(0).span))
            },
        },
    }
}

/// The tail of a separated list: separator-then-item pairs, repeated. In
/// dangling mode a separator not followed by an item is consumed and the
/// list ends; otherwise the item's failure propagates. An iteration that
/// consumes nothing ends the list.
pub open spec fn run_sep_tail(p: ParserM, sep: ParserM, dangling: bool, st: StateM) -> Result<
    (StateM, Seq<OutputM>),
    StateM,
>
    decreases st.wlen(), 1 + psize(p) + psize(sep), 0int,
{
    match run(sep, st) {
        Err(_) => Ok((st, Seq::empty())),
        Ok((s2, _osep)) => if s2.wlen() <= st.wlen() {
            match run(p, s2) {
                Err(s3) => if dangling {
                    Ok((s2, Seq::empty()))
                } else {
                    Err(s3)
                },
                Ok((s3, o)) => if s3.wlen() < st.wlen() {
                    match run_sep_tail(p, sep, dangling, s3) {
                        Ok((sf, os)) => Ok((sf, seq![o] + os)),
                        Err(sf) => Err(sf),
                    }
                } else {
                    Ok((st, Seq::empty()))
                },
            }
        } else {
            Ok((st, Seq::empty()))
        },
    }
}

/// What a whole parse of a buffer returns: the output, provided the final
/// state carries no residual error; otherwise the error.
pub open spec fn parse_result(p: ParserM, bytes: Seq<u8>) -> Result<OutputM, ErrorM> {
    match run(p, StateM::fresh(bytes)) {
        Ok((s, o)) => if s.error.count() == 0 {
            Ok(o)
        } else {
            Err(s.error)
        },
        Err(s) => Err(s.error),
    }
}

/// How a state may change under a parser: the bytes stay, the window's
/// tail stays, the head only moves forward, and a valid window stays
/// valid.
pub open spec fn evolves(a: StateM, b: StateM) -> bool {
    a.input.wf() ==> (b.input.bytes == a.input.bytes && b.input.span.tail == a.input.span.tail
        && a.input.span.head <= b.input.span.head && b.input.wf())
}

/// The result state of `run` evolves from the starting state, whether the
/// parse succeeded or failed: parsers only ever narrow the window.
#[verifier::rlimit(100)]
pub proof fn lemma_run_evolves(p: ParserM, st: StateM)
    ensures
        match run(p, st) {
            Ok((s, _o)) => evolves(st, s),
            Err(s) => evolves(st, s),
        },
    decreases st.wlen(), psize(p), 1int,
{
    match p {
        ParserM::Is(m) => {
            lemma_is_scan_bounds(st.input, m, 0);
        },
        ParserM::Not(q) => {
            lemma_run_evolves(*q, st);
        },
        ParserM::Id => {},
        ParserM::Eoi => {},
        ParserM::Take(_n) => {},
        ParserM::TakeUntil(u) => {
            lemma_take_until_evolves(*u, st, st.input.span.head);
        },
        ParserM::DecimalDigit => {},
        ParserM::Decimal => {},
        ParserM::HexadecimalDigit => {},
        ParserM::Hexadecimal => {},
        ParserM::AlphabeticChar => {},
        ParserM::Alphabetic => {},
        ParserM::AlphanumericChar => {},
        ParserM::Alphanumeric => {},
        ParserM::Whitespace => {},
        ParserM::WhitespaceNotNewline => {},
        ParserM::Newlines => {},
        ParserM::Then(a, b) => {
            lemma_run_evolves(*a, st);
            if let Ok((s1, _o1)) = run(*a, st) {
                if s1.wlen() <= st.wlen() {
                    lemma_run_evolves(*b, s1);
                }
            }
        },
        ParserM::Any(ps) => {
            lemma_alt_evolves(ps, st);
        },
        ParserM::Commit(q) => {
            lemma_run_evolves(*q, st);
        },
        ParserM::Maybe(q) => {
            lemma_run_evolves(*q, st);
        },
        ParserM::Many(q) => {
            lemma_many_evolves(*q, st);
        },
        ParserM::ManyN(n, q) => {
            lemma_many_n_evolves(*q, n, st);
        },
        ParserM::ManyMN(m, n, q) => {
            lemma_many_mn_evolves(*q, m, n, st);
        },
        ParserM::ManyUntil(a, b) => {
            lemma_many_until_evolves(*a, *b, st);
        },
        ParserM::Separated(a, b, dangling) => {
            lemma_run_evolves(*a, st);
            if let Ok((s1, _o1)) = run(*a, st) {
                if s1.wlen() <= st.wlen() {
                    lemma_sep_tail_evolves(*a, *b, dangling, s1);
                }
            }
        },
        ParserM::Between(a, b, c) => {
            lemma_run_evolves(*a, st);
            if let Ok((s1, _o1)) = run(*a, st) {
                if s1.wlen() <= st.wlen() {
                    lemma_run_evolves(*b, s1);
                    if let Ok((s2, _o2)) = run(*b, s1) {
                        if s2.wlen() <= st.wlen() {
                            lemma_run_evolves(*c, s2);
                        }
                    }
                }
            }
        },
        ParserM::PanicRecover(a, b) => {
            lemma_run_evolves(*a, st);
            if let Err(se) = run(*a, st) {
                if se.wlen() <= st.wlen() {
                    lemma_take_until_evolves(*b, se, se.input.span.head);
                }
            }
        },
        ParserM::Consumed(q) => {
            lemma_run_evolves(*q, st);
        },
    }
}

/// Where a literal match stops, it stops inside the literal and no
/// earlier than where it started.
pub proof fn lemma_is_scan_bounds(i: InputM, m: Seq<u8>, k0: int)
    requires
        0 <= k0 <= m.len(),
    ensures
        match is_scan(i, m, k0) {
            ScanIs::Hit => true,
            ScanIs::Mismatch(k) => k0 <= k < m.len(),
            ScanIs::End(k) => k0 <= k < m.len(),
        },
    decreases m.len() - k0,
{
    if k0 < m.len() {
        if i.at(i.span.head + k0) matches Some(b) && b == m[k0] {
            lemma_is_scan_bounds(i, m, k0 + 1);
        }
    }
}

/// Every state produced while trying alternatives evolves from the start.
pub proof fn lemma_alt_evolves(ps: Seq<ParserM>, st: StateM)
    ensures
        match run_alt(ps, st) {
            AltM::Win(s, _o) => evolves(st, s),
            AltM::Halt(s) => evolves(st, s),
            AltM::Fails(_es) => true,
        },
    decreases st.wlen(), psize_seq(ps), 0int,
{
    if ps.len() > 0 {
        lemma_run_evolves(ps[0], st);
        if let Err(s) = run(ps[0], st) {
            if !s.error.is_committed() {
                lemma_alt_evolves(ps.drop_first(), st);
            }
        }
    }
}

proof fn lemma_take_until_evolves(u: ParserM, st: StateM, h0: int)
    ensures
        match run_take_until(u, st, h0) {
            Ok((s, _o)) => evolves(st, s),
            Err(s) => evolves(st, s),
        },
    decreases st.wlen(), psize(u) + 1, 0int,
{
    lemma_run_evolves(u, st);
    if run(u, st) is Err {
        if st.wlen() != 0 {
            lemma_take_until_evolves(u, st.with_input(st.input.skip(1)), h0);
        }
    }
}

proof fn lemma_many_evolves(q: ParserM, st: StateM)
    ensures
        evolves(st, run_many(q, st).0),
    decreases st.wlen(), psize(q) + 1, 0int,
{
    lemma_run_evolves(q, st);
    if let Ok((s1, _o1)) = run(q, st) {
        if s1.wlen() < st.wlen() {
            lemma_many_evolves(q, s1);
        }
    }
}

proof fn lemma_many_n_evolves(q: ParserM, n: int, st: StateM)
    ensures
        match run_many_n(q, n, st) {
            Ok((s, _os)) => evolves(st, s),
            Err(s) => evolves(st, s),
        },
    decreases st.wlen(), bound_nat(n) * (1 + psize(q)), 0int,
{
    if n > 0 {
        vstd::arithmetic::mul::lemma_mul_inequality(2, bound_nat(n) as int, (1 + psize(q)) as int);
        vstd::arithmetic::mul::lemma_mul_strict_inequality(
            bound_nat(n - 1) as int,
            bound_nat(n) as int,
            (1 + psize(q)) as int,
        );
        lemma_run_evolves(q, st);
        if let Ok((s1, _o1)) = run(q, st) {
            if s1.wlen() <= st.wlen() {
                lemma_many_n_evolves(q, n - 1, s1);
            }
        }
    }
}

proof fn lemma_many_mn_evolves(q: ParserM, m: int, n: int, st: StateM)
    ensures
        match run_many_mn(q, m, n, st) {
            Ok((s, _os)) => evolves(st, s),
            Err(s) => evolves(st, s),
        },
    decreases st.wlen(), bound_nat(if m >= n { m } else { n }) * (1 + psize(q)), 0int,
{
    let top = if m >= n {
        m
    } else {
        n
    };
    if m > 0 {
        vstd::arithmetic::mul::lemma_mul_inequality(
            2,
            bound_nat(top) as int,
            (1 + psize(q)) as int,
        );
        vstd::arithmetic::mul::lemma_mul_strict_inequality(
            bound_nat(top - 1) as int,
            bound_nat(top) as int,
            (1 + psize(q)) as int,
        );
        lemma_run_evolves(q, st);
        if let Ok((s1, _o1)) = run(q, st) {
            if s1.wlen() <= st.wlen() {
                lemma_many_mn_evolves(
                    q,
                    m - 1,
                    if n >= 1 {
                        n - 1
                    } else {
                        0
                    },
                    s1,
                );
            }
        }
    } else if n > 0 {
        vstd::arithmetic::mul::lemma_mul_inequality(
            2,
            bound_nat(top) as int,
            (1 + psize(q)) as int,
        );
        lemma_run_evolves(q, st);
        if let Ok((s1, _o1)) = run(q, st) {
            if s1.wlen() < st.wlen() {
                lemma_many_mn_evolves(q, 0, n - 1, s1);
            }
        }
    }
}

proof fn lemma_many_until_evolves(p: ParserM, u: ParserM, st: StateM)
    ensures
        match run_many_until(p, u, st) {
            Ok((s, _os, _ou)) => evolves(st, s),
            Err(s) => evolves(st, s),
        },
    decreases st.wlen(), psize(p) + psize(u) + 1, 0int,
{
    lemma_run_evolves(u, st);
    if run(u, st) is Err {
        lemma_run_evolves(p, st);
        if let Ok((s1, _o1)) = run(p, st) {
            if s1.wlen() < st.wlen() {
                lemma_many_until_evolves(p, u, s1);
            }
        }
    }
}

proof fn lemma_sep_tail_evolves(p: ParserM, sep: ParserM, dangling: bool, st: StateM)
    ensures
        match run_sep_tail(p, sep, dangling, st) {
            Ok((s, _os)) => evolves(st, s),
            Err(s) => evolves(st, s),
        },
    decreases st.wlen(), 1 + psize(p) + psize(sep), 0int,
{
    lemma_run_evolves(sep, st);
    if let Ok((s2, _osep)) = run(sep, st) {
        if s2.wlen() <= st.wlen() {
            lemma_run_evolves(p, s2);
            if let Ok((s3, _o)) = run(p, s2) {
                if s3.wlen() < st.wlen() {
                    lemma_sep_tail_evolves(p, sep, dangling, s3);
                }
            }
        }
    }
}

} // verus!
