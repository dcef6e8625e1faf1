//! The parser representation: a first-order tree of combinators, the
//! dynamically shaped output values parsers produce, and the entry points
//! that process a state or parse a whole buffer.
//!
//! A parser is interpreted by [`crate::parser::Parser::process`], whose
//! behaviour — on success and on failure — is pinned down, for every
//! parser and every state, by the specification interpreter
//! [`crate::semantics::run`].

use crate::errors::{errs_view, Error, ErrorKind, ErrorM, ExpectedError};
use crate::input::{Input, InputM};
use crate::semantics::{
    class_continues, class_expected, expected, is_scan, lemma_is_scan_bounds, lemma_run_evolves,
    parse_result, run, run_alt, run_class, run_many, run_many_mn, run_many_n, run_many_until,
    run_sep_tail, run_take_until, scan_len, AltM, GlyphClass, ScanIs,
};
use crate::span::Span;
use crate::state::{State, StateM};
use vstd::prelude::*;

verus! {

/// The result of processing one parser: the new state and the output on
/// success, or the state carrying the error on failure.
pub type PResult = Result<(State, Output), State>;

/// Mathematical model of a parser.
pub enum ParserM {
    /// Matches a literal byte string.
    Is(Seq<u8>),
    /// Succeeds exactly when the sub-parser fails, consuming nothing.
    Not(Box<ParserM>),
    /// Consumes everything and returns it all.
    Id,
    /// Matches the end of input.
    Eoi,
    /// Takes exactly `n` glyphs.
    Take(int),
    /// Consumes glyphs until the sub-parser matches, returning both the
    /// skipped region and the sub-parser's output.
    TakeUntil(Box<ParserM>),
    /// A single decimal digit.
    DecimalDigit,
    /// A run of one or more decimal digits.
    Decimal,
    /// A single hexadecimal digit.
    HexadecimalDigit,
    /// A run of one or more hexadecimal digits.
    Hexadecimal,
    /// A single alphabetic character.
    AlphabeticChar,
    /// A run of one or more alphabetic characters.
    Alphabetic,
    /// A single alphanumeric character.
    AlphanumericChar,
    /// A run of one or more alphanumeric characters.
    Alphanumeric,
    /// A run of one or more whitespace glyphs, newlines included.
    Whitespace,
    /// A run of one or more whitespace glyphs, newlines excluded.
    WhitespaceNotNewline,
    /// A run of one or more newlines.
    Newlines,
    /// Two parsers in sequence; the outputs are paired.
    Then(Box<ParserM>, Box<ParserM>),
    /// Ordered alternation over a list of parsers.
    Any(Seq<ParserM>),
    /// Marks a failure of the sub-parser as committed.
    Commit(Box<ParserM>),
    /// Runs the sub-parser, turning failure into an absent output.
    Maybe(Box<ParserM>),
    /// Repeats the sub-parser until it fails; never fails itself.
    Many(Box<ParserM>),
    /// Repeats the sub-parser exactly `n` times.
    ManyN(int, Box<ParserM>),
    /// Repeats the sub-parser between `m` and `n` times.
    ManyMN(int, int, Box<ParserM>),
    /// Repeats the first parser until the second matches.
    ManyUntil(Box<ParserM>, Box<ParserM>),
    /// A list of the first parser's matches separated by the second's.
    Separated(Box<ParserM>, Box<ParserM>, bool),
    /// The middle parser between an opener and a closer.
    Between(Box<ParserM>, Box<ParserM>, Box<ParserM>),
    /// Panic-mode recovery: on failure, consume up to and through the
    /// second parser's match and succeed with an absent output.
    PanicRecover(Box<ParserM>, Box<ParserM>),
    /// The region of input the sub-parser consumed.
    Consumed(Box<ParserM>),
}

/// Mathematical model of a parser's output.
pub enum OutputM {
    /// A region of matched input.
    Matched(InputM),
    /// No interesting output (end of input, negation).
    Unit,
    /// Two outputs, from a sequence of two parsers.
    Pair(Box<OutputM>, Box<OutputM>),
    /// Outputs collected by a repetition.
    List(Seq<OutputM>),
    /// An output that may be absent.
    Maybe(Option<Box<OutputM>>),
}

/// A parser: a first-order tree of combinators, built by the constructor
/// functions in [`crate::combinators`] and interpreted by `process`.
#[derive(Debug)]
pub enum Parser {
    Is(Vec<u8>),
    Not(Box<Parser>),
    Id,
    Eoi,
    Take(usize),
    TakeUntil(Box<Parser>),
    DecimalDigit,
    Decimal,
    HexadecimalDigit,
    Hexadecimal,
    AlphabeticChar,
    Alphabetic,
    AlphanumericChar,
    Alphanumeric,
    Whitespace,
    WhitespaceNotNewline,
    Newlines,
    Then(Box<Parser>, Box<Parser>),
    Any(Vec<Parser>),
    Commit(Box<Parser>),
    Maybe(Box<Parser>),
    Many(Box<Parser>),
    ManyN(usize, Box<Parser>),
    ManyMN(usize, usize, Box<Parser>),
    ManyUntil(Box<Parser>, Box<Parser>),
    Separated(Box<Parser>, Box<Parser>, bool),
    Between(Box<Parser>, Box<Parser>, Box<Parser>),
    PanicRecover(Box<Parser>, Box<Parser>),
    Consumed(Box<Parser>),
}

/// The output of a parser: matched input, unit, a pair, a list, or an
/// output that may be absent.
#[derive(Debug, PartialEq)]
pub enum Output {
    Matched(Input),
    Unit,
    Pair(Box<Output>, Box<Output>),
    List(Vec<Output>),
    Maybe(Option<Box<Output>>),
}

/// The model of an exec parser.
pub open spec fn parser_view(p: Parser) -> ParserM
    decreases p,
{
    match p {
        Parser::Is(m) => ParserM::Is(m@),
        Parser::Not(q) => ParserM::Not(Box::new(parser_view(*q))),
        Parser::Id => ParserM::Id,
        Parser::Eoi => ParserM::Eoi,
        Parser::Take(n) => ParserM::Take(n as int),
        Parser::TakeUntil(q) => ParserM::TakeUntil(Box::new(parser_view(*q))),
        Parser::DecimalDigit => ParserM::DecimalDigit,
        Parser::Decimal => ParserM::Decimal,
        Parser::HexadecimalDigit => ParserM::HexadecimalDigit,
        Parser::Hexadecimal => ParserM::Hexadecimal,
        Parser::AlphabeticChar => ParserM::AlphabeticChar,
        Parser::Alphabetic => ParserM::Alphabetic,
        Parser::AlphanumericChar => ParserM::AlphanumericChar,
        Parser::Alphanumeric => ParserM::Alphanumeric,
        Parser::Whitespace => ParserM::Whitespace,
        Parser::WhitespaceNotNewline => ParserM::WhitespaceNotNewline,
        Parser::Newlines => ParserM::Newlines,
        Parser::Then(a, b) => ParserM::Then(
            Box::new(parser_view(*a)),
            Box::new(parser_view(*b)),
        ),
        Parser::Any(ps) => ParserM::Any(parsers_view(ps@)),
        Parser::Commit(q) => ParserM::Commit(Box::new(parser_view(*q))),
        Parser::Maybe(q) => ParserM::Maybe(Box::new(parser_view(*q))),
        Parser::Many(q) => ParserM::Many(Box::new(parser_view(*q))),
        Parser::ManyN(n, q) => ParserM::ManyN(n as int, Box::new(parser_view(*q))),
        Parser::ManyMN(m, n, q) => ParserM::ManyMN(m as int, n as int, Box::new(parser_view(*q))),
        Parser::ManyUntil(a, b) => ParserM::ManyUntil(
            Box::new(parser_view(*a)),
            Box::new(parser_view(*b)),
        ),
        Parser::Separated(a, b, d) => ParserM::Separated(
            Box::new(parser_view(*a)),
            Box::new(parser_view(*b)),
            d,
        ),
        Parser::Between(a, b, c) => ParserM::Between(
            Box::new(parser_view(*a)),
            Box::new(parser_view(*b)),
            Box::new(parser_view(*c)),
        ),
        Parser::PanicRecover(a, b) => ParserM::PanicRecover(
            Box::new(parser_view(*a)),
            Box::new(parser_view(*b)),
        ),
        Parser::Consumed(q) => ParserM::Consumed(Box::new(parser_view(*q))),
    }
}

pub open spec fn parsers_view(ps: Seq<Parser>) -> Seq<ParserM>
    decreases ps,
{
    if ps.len() == 0 {
        Seq::empty()
    } else {
        parsers_view(ps.drop_last()).push(parser_view(ps.last()))
    }
}

impl View for Parser {
    type V = ParserM;

    open spec fn view(&self) -> ParserM {
        parser_view(*self)
    }
}

/// The length of `parsers_view` matches, and each element is the view of
/// the corresponding parser.
pub proof fn lemma_parsers_view(ps: Seq<Parser>)
    ensures
        parsers_view(ps).len() == ps.len(),
        forall|i: int| 0 <= i < ps.len() ==> parsers_view(ps)[i] == parser_view(ps[i]),
    decreases ps,
{
    if ps.len() > 0 {
        lemma_parsers_view(ps.drop_last());
    }
}

/// The model of an exec output.
pub open spec fn output_view(o: Output) -> OutputM
    decreases o,
{
    match o {
        Output::Matched(i) => OutputM::Matched(i@),
        Output::Unit => OutputM::Unit,
        Output::Pair(a, b) => OutputM::Pair(
            Box::new(output_view(*a)),
            Box::new(output_view(*b)),
        ),
        Output::List(os) => OutputM::List(outputs_view(os@)),
        Output::Maybe(x) => match x {
            Some(o) => OutputM::Maybe(Some(Box::new(output_view(*o)))),
            None => OutputM::Maybe(None),
        },
    }
}

pub open spec fn outputs_view(os: Seq<Output>) -> Seq<OutputM>
    decreases os,
{
    if os.len() == 0 {
        Seq::empty()
    } else {
        outputs_view(os.drop_last()).push(output_view(os.last()))
    }
}

impl View for Output {
    type V = OutputM;

    open spec fn view(&self) -> OutputM {
        output_view(*self)
    }
}

/// The length of `outputs_view` matches, and each element is the view of
/// the corresponding output.
pub proof fn lemma_outputs_view(os: Seq<Output>)
    ensures
        outputs_view(os).len() == os.len(),
        forall|i: int| 0 <= i < os.len() ==> outputs_view(os)[i] == output_view(os[i]),
    decreases os,
{
    if os.len() > 0 {
        lemma_outputs_view(os.drop_last());
    }
}

/// `k + 1` as a natural number, or `1` for negative `k`.
pub open spec fn bound_nat(k: int) -> nat {
    if k >= 0 {
        (k + 1) as nat
    } else {
        1
    }
}

/// A structural size for parsers, used as a termination measure for the
/// interpreter: repetition bounds count as repeated copies.
pub open spec fn psize(p: ParserM) -> nat
    decreases p,
{
    match p {
        ParserM::Is(_) => 1,
        ParserM::Not(q) => 1 + psize(*q),
        ParserM::Id => 1,
        ParserM::Eoi => 1,
        ParserM::Take(_) => 1,
        ParserM::TakeUntil(q) => 1 + psize(*q),
        ParserM::DecimalDigit => 1,
        ParserM::Decimal => 1,
        ParserM::HexadecimalDigit => 1,
        ParserM::Hexadecimal => 1,
        ParserM::AlphabeticChar => 1,
        ParserM::Alphabetic => 1,
        ParserM::AlphanumericChar => 1,
        ParserM::Alphanumeric => 1,
        ParserM::Whitespace => 1,
        ParserM::WhitespaceNotNewline => 1,
        ParserM::Newlines => 1,
        ParserM::Then(a, b) => 1 + psize(*a) + psize(*b),
        ParserM::Any(ps) => 1 + psize_seq(ps),
        ParserM::Commit(q) => 1 + psize(*q),
        ParserM::Maybe(q) => 1 + psize(*q),
        ParserM::Many(q) => 2 + psize(*q),
        ParserM::ManyN(n, q) => 1 + bound_nat(n) * (1 + psize(*q)),
        ParserM::ManyMN(m, n, q) => 1 + bound_nat(if m >= n { m } else { n }) * (1 + psize(*q)),
        ParserM::ManyUntil(a, b) => 1 + psize(*a) + psize(*b),
        ParserM::Separated(a, b, _) => 2 + psize(*a) + psize(*b),
        ParserM::Between(a, b, c) => 1 + psize(*a) + psize(*b) + psize(*c),
        ParserM::PanicRecover(a, b) => 2 + psize(*a) + psize(*b),
        ParserM::Consumed(q) => 1 + psize(*q),
    }
}

pub open spec fn psize_seq(ps: Seq<ParserM>) -> nat
    decreases ps,
{
    if ps.len() == 0 {
        0
    } else {
        1 + psize(ps[0]) + psize_seq(ps.drop_first())
    }
}

/// The model of a processing result.
pub open spec fn pres_view(r: PResult) -> Result<(StateM, OutputM), StateM> {
    match r {
        Ok((s, o)) => Ok((s@, output_view(o))),
        Err(s) => Err(s@),
    }
}

/// Inserting an output at the front prepends its view to the list's view.
pub proof fn lemma_outputs_view_insert0(os: Seq<Output>, o: Output)
    ensures
        outputs_view(os.insert(0, o)) == seq![output_view(o)] + outputs_view(os),
    decreases os,
{
    lemma_outputs_view(os.insert(0, o));
    lemma_outputs_view(os);
    assert(outputs_view(os.insert(0, o)) =~= seq![output_view(o)] + outputs_view(os));
}

/// Inserting an error at the front prepends its view to the list's view.
pub proof fn lemma_errs_view_insert0(es: Seq<Error>, e: Error)
    ensures
        errs_view(es.insert(0, e)) == seq![crate::errors::err_view(e)] + errs_view(es),
{
    crate::errors::lemma_errs_view(es.insert(0, e));
    crate::errors::lemma_errs_view(es);
    assert(errs_view(es.insert(0, e)) =~= seq![crate::errors::err_view(e)] + errs_view(es));
}

/// The state with an expected-kind error appended.
fn fail_expected(st: State, x: ExpectedError, from: Span) -> (r: State)
    ensures
        r@ == expected(st@, x@, from@),
{
    st.with_error(Error::new(ErrorKind::expected(x), from))
}

/// Whether the scan of class `cls` continues `k` glyphs into the window.
fn class_cont(i: &Input, k: usize, cls: GlyphClass) -> (r: bool)
    ensures
        r == class_continues(i@, i@.span.head + k, cls),
{
    let sp = i.span();
    let h = sp.head();
    let t = sp.tail();
    if k == usize::MAX {
        assert(i@.at(i@.span.head + k) is None);
        return false;
    }
    match i.peek_nth(k + 1) {
        None => false,
        Some(c) => match cls {
            GlyphClass::Digit10 => 48 <= c && c <= 57,
            GlyphClass::Digit16 => (48 <= c && c <= 57) || (65 <= c && c <= 70) || (97 <= c && c
                <= 102),
            GlyphClass::Alpha => (65 <= c && c <= 90) || (97 <= c && c <= 122),
            GlyphClass::AlphaNum => (65 <= c && c <= 90) || (97 <= c && c <= 122) || (48 <= c && c
                <= 57),
            GlyphClass::Ws => c == 32 || c == 9 || c == 10 || c == 12 || c == 13,
            GlyphClass::WsNoNl => (c == 32 || c == 9 || c == 12 || c == 13) && !(c == 13
                && next_is_lf(i, k)),
            GlyphClass::Nl => c == 10 || (c == 13 && next_is_lf(i, k)),
        },
    }
}

/// Whether the glyph after position `k` in the window is a line feed.
fn next_is_lf(i: &Input, k: usize) -> (r: bool)
    ensures
        r == (i@.at(i@.span.head + k + 1) == Some(10u8)),
{
    let sp = i.span();
    let h = sp.head();
    let t = sp.tail();
    if k >= usize::MAX - 1 {
        assert(i@.at(i@.span.head + k + 1) is None);
        return false;
    }
    match i.peek_nth(k + 2) {
        None => false,
        Some(c) => c == 10,
    }
}

/// Runs a glyph-class recognizer: one glyph, or a run of one or more.
fn process_class(st: State, cls: GlyphClass, full: bool) -> (r: PResult)
    requires
        st@.input.wf(),
    ensures
        pres_view(r) == run_class(st@, cls, full),
{
    let n = st.as_input().len();
    let mut k: usize = 0;
    if full {
        while class_cont(st.as_input(), k, cls)
            invariant
                st@.input.wf(),
                0 <= k <= n,
                n == st@.input.len(),
                scan_len(st@.input, cls, 0) == k + scan_len(st@.input, cls, k as int),
            decreases n - k,
        {
            k = k + 1;
        }
    } else {
        if class_cont(st.as_input(), 0, cls) {
            k = 1;
        }
    }
    if k >= 1 {
        let skipped = st.as_input().skip(k);
        let taken = st.as_input().take(k);
        Ok((st.with_input(skipped), Output::Matched(taken)))
    } else {
        let from = st.as_input().take(1).span();
        let x = match cls {
            GlyphClass::Digit10 => ExpectedError::Digit(10),
            GlyphClass::Digit16 => ExpectedError::Digit(16),
            GlyphClass::Alpha => ExpectedError::Alpha,
            GlyphClass::AlphaNum => ExpectedError::AlphaNum,
            GlyphClass::Ws => ExpectedError::Whitespace,
            GlyphClass::WsNoNl => ExpectedError::WhitespaceNoNewlines,
            GlyphClass::Nl => ExpectedError::Newlines,
        };
        assert(x@ == class_expected(cls));
        Err(fail_expected(st, x, from))
    }
}

/// Matches a literal against the front of the window.
fn process_is(m: &Vec<u8>, st: State) -> (r: PResult)
    requires
        st@.input.wf(),
    ensures
        pres_view(r) == run(ParserM::Is(m@), st@),
{
    let len = m.len();
    let mut k: usize = 0;
    proof {
        lemma_is_scan_bounds(st@.input, m@, 0);
    }
    while k < len
        invariant
            st@.input.wf(),
            0 <= k <= len,
            len == m@.len(),
            is_scan(st@.input, m@, k as int) == is_scan(st@.input, m@, 0),
        decreases len - k,
    {
        match st.as_input().peek_nth(k + 1) {
            None => {
                assert(is_scan(st@.input, m@, 0) == ScanIs::End(k as int));
                let skipped = st.as_input().skip(k);
                let from = skipped.span();
                let lit = crate::input::copy_range_all(m);
                return Err(
                    fail_expected(st.with_input(skipped), ExpectedError::Is(lit), from),
                );
            },
            Some(c) => {
                if c != m[k] {
                    assert(is_scan(st@.input, m@, 0) == ScanIs::Mismatch(k as int));
                    let from = st.as_input().take(k + 1).span();
                    let skipped = st.as_input().skip(k);
                    let lit = crate::input::copy_range_all(m);
                    return Err(
                        fail_expected(st.with_input(skipped), ExpectedError::Is(lit), from),
                    );
                }
            },
        }
        k = k + 1;
    }
    assert(is_scan(st@.input, m@, 0) == ScanIs::Hit);
    let taken = st.as_input().take(len);
    let skipped = st.as_input().skip(len);
    Ok((st.with_input(skipped), Output::Matched(taken)))
}

/// The possible outcomes of trying a list of alternatives.
enum AltRes {
    Win(State, Output),
    Halt(State),
    Fails(State, Vec<Error>),
}

/// Tries the alternatives from index `i` on, each on an independent fork
/// of the state; `Fails` hands the untouched state back along with every
/// branch's error.
fn process_alt(ps: &Vec<Parser>, i: usize, st: State) -> (r: AltRes)
    requires
        st@.input.wf(),
        i <= ps@.len(),
    ensures
        match r {
            AltRes::Win(s, o) => run_alt(parsers_view(ps@).skip(i as int), st@) == AltM::Win(
                s@,
                output_view(o),
            ),
            AltRes::Halt(s) => run_alt(parsers_view(ps@).skip(i as int), st@) == AltM::Halt(s@),
            AltRes::Fails(s, es) => s@ == st@ && run_alt(parsers_view(ps@).skip(i as int), st@)
                == AltM::Fails(errs_view(es@)),
        },
    decreases st@.wlen(), psize_seq(parsers_view(ps@).skip(i as int)), 0int,
{
    proof {
        lemma_parsers_view(ps@);
    }
    let ghost tail = parsers_view(ps@).skip(i as int);
    if i == ps.len() {
        assert(tail =~= Seq::<ParserM>::empty());
        let es: Vec<Error> = Vec::new();
        proof {
            crate::errors::lemma_errs_view(es@);
            assert(errs_view(es@) =~= Seq::<ErrorM>::empty());
            assert(run_alt(tail, st@) == AltM::Fails(errs_view(es@)));
        }
        AltRes::Fails(st, es)
    } else {
        assert(tail[0] == parser_view(ps@[i as int]));
        assert(tail.drop_first() =~= parsers_view(ps@).skip(i + 1 as int));
        match ps[i].process(st.fork()) {
            Ok((s, o)) => {
                proof {
                    assert(run(tail[0], st@) == Ok::<(StateM, OutputM), StateM>(
                        (s@, output_view(o)),
                    ));
                    assert(run_alt(tail, st@) == AltM::Win(s@, output_view(o)));
                }
                AltRes::Win(s, o)
            },
            Err(s) => {
                if s.errors().is_committed() {
                    AltRes::Halt(s)
                } else {
                    match process_alt(ps, i + 1, st) {
                        AltRes::Win(s2, o2) => AltRes::Win(s2, o2),
                        AltRes::Halt(s2) => AltRes::Halt(s2),
                        AltRes::Fails(s2, mut es) => {
                            let ghost pre = errs_view(es@);
                            let (_inp, err) = s.into_parts();
                            proof {
                                lemma_errs_view_insert0(es@, err);
                            }
                            es.insert(0, err);
                            proof {
                                assert(errs_view(es@) == seq![crate::errors::err_view(err)]
                                    + pre);
                                assert(run_alt(tail, st@) == AltM::Fails(
                                    seq![crate::errors::err_view(err)] + pre,
                                ));
                            }
                            AltRes::Fails(s2, es)
                        },
                    }
                }
            },
        }
    }
}

/// Folds the spans of the collected branch errors into one, left to
/// right, spanning over gaps.
fn union_spans(es: &Vec<Error>) -> (sp: Span)
    ensures
        sp@ == crate::semantics::spans_union(errs_view(es@)),
{
    proof {
        crate::errors::lemma_errs_view(es@);
    }
    if es.len() == 0 {
        assert(errs_view(es@) =~= Seq::<ErrorM>::empty());
        Span::new(0, 0)
    } else {
        let mut sp = es[0].from();
        let mut i: usize = 1;
        proof {
            assert(errs_view(es@.take(1)).len() == 1) by {
                crate::errors::lemma_errs_view(es@.take(1));
            }
            assert(errs_view(es@.take(1))[0] == crate::errors::err_view(es@[0])) by {
                crate::errors::lemma_errs_view(es@.take(1));
            }
        }
        while i < es.len()
            invariant
                1 <= i <= es@.len(),
                sp@ == crate::semantics::spans_union(errs_view(es@.take(i as int))),
            decreases es@.len() - i,
        {
            let next = es[i].from();
            sp = sp.union_between(next);
            proof {
                lemma_spans_union_take(es@, i as int);
            }
            i = i + 1;
        }
        proof {
            assert(es@.take(es@.len() as int) =~= es@);
        }
        sp
    }
}

/// Extending the folded span by one error unions in that error's span.
proof fn lemma_spans_union_take(es: Seq<Error>, i: int)
    requires
        1 <= i < es.len(),
    ensures
        crate::semantics::spans_union(errs_view(es.take(i + 1)))
            == crate::semantics::spans_union(errs_view(es.take(i))).union(
            crate::errors::err_view(es[i]).from,
        ),
{
    crate::errors::lemma_errs_view(es.take(i + 1));
    crate::errors::lemma_errs_view(es.take(i));
    let a = errs_view(es.take(i + 1));
    let b = errs_view(es.take(i));
    assert(a.drop_last() =~= b);
    assert(a.last() == crate::errors::err_view(es[i]));
}

/// Consumes glyphs one at a time until `u` matches; `orig` is the input
/// as it stood when the consumption began.
fn process_take_until(u: &Parser, st: State, orig: &Input) -> (r: PResult)
    requires
        st@.input.wf(),
        orig@.wf(),
        orig@.bytes == st@.input.bytes,
        orig@.span.tail == st@.input.span.tail,
        orig@.span.head <= st@.input.span.head,
    ensures
        pres_view(r) == run_take_until(u@, st@, orig@.span.head),
    decreases st@.wlen(), psize(u@) + 1, 0int,
{
    let ghost st0 = st@;
    match u.process(st.fork()) {
        Ok((su, ou)) => {
            let k = st.as_input().span().head() - orig.span().head();
            let taken = orig.take(k);
            assert(taken@ == (InputM {
                bytes: st0.input.bytes,
                span: crate::span::SpanM { head: orig@.span.head, tail: st0.input.span.head },
            }));
            let r = Ok((su, Output::Pair(Box::new(Output::Matched(taken)), Box::new(ou))));
            proof {
                let spec_r = run_take_until(u@, st0, orig@.span.head);
                assert(spec_r is Ok);
                assert(pres_view(r)->Ok_0.0 == spec_r->Ok_0.0);
                let sp1 = spec_r->Ok_0.1;
                assert(sp1 is Pair);
                assert(output_view(ou) == *sp1->Pair_1);
                assert(output_view(Output::Matched(taken)) == *sp1->Pair_0);
                assert(pres_view(r)->Ok_0.1 == spec_r->Ok_0.1);
            }
            r
        },
        Err(_) => {
            if st.as_input().is_empty() {
                let t = st.as_input().span().tail();
                Err(fail_expected(st, ExpectedError::Anything, Span::new(t, t)))
            } else {
                let skipped = st.as_input().skip(1);
                process_take_until(u, st.with_input(skipped), orig)
            }
        },
    }
}

/// Repeats `q` until it fails or stops consuming.
fn process_many(q: &Parser, st: State) -> (r: (State, Vec<Output>))
    requires
        st@.input.wf(),
    ensures
        r.0@ == run_many(q@, st@).0,
        outputs_view(r.1@) == run_many(q@, st@).1,
    decreases st@.wlen(), psize(q@) + 1, 0int,
{
    let ghost st0 = st@;
    let n0 = st.as_input().len();
    match q.process(st.fork()) {
        Err(_) => (st, Vec::new()),
        Ok((s1, o1)) => {
            proof {
                lemma_run_evolves(q@, st0);
            }
            let n1 = s1.as_input().len();
            if n1 < n0 {
                let (sf, mut os) = process_many(q, s1);
                proof {
                    lemma_outputs_view_insert0(os@, o1);
                }
                os.insert(0, o1);
                (sf, os)
            } else {
                (st, Vec::new())
            }
        },
    }
}

/// Repeats `q` exactly `n` times.
fn process_many_n(q: &Parser, n: usize, st: State) -> (r: Result<(State, Vec<Output>), State>)
    requires
        st@.input.wf(),
    ensures
        match r {
            Ok((s, os)) => run_many_n(q@, n as int, st@) == Ok::<_, StateM>(
                (s@, outputs_view(os@)),
            ),
            Err(s) => run_many_n(q@, n as int, st@) == Err::<(StateM, Seq<OutputM>), _>(s@),
        },
    decreases st@.wlen(), crate::parser::bound_nat(n as int) * (1 + psize(q@)), 0int,
{
    let ghost st0 = st@;
    if n == 0 {
        Ok((st, Vec::new()))
    } else {
        proof {
            vstd::arithmetic::mul::lemma_mul_inequality(
                2,
                bound_nat(n as int) as int,
                (1 + psize(q@)) as int,
            );
            vstd::arithmetic::mul::lemma_mul_strict_inequality(
                bound_nat(n as int - 1) as int,
                bound_nat(n as int) as int,
                (1 + psize(q@)) as int,
            );
        }
        match q.process(st.fork()) {
            Err(s) => Err(s),
            Ok((s1, o1)) => {
                proof {
                    lemma_run_evolves(q@, st0);
                }
                match process_many_n(q, n - 1, s1) {
                    Ok((sf, mut os)) => {
                        proof {
                            lemma_outputs_view_insert0(os@, o1);
                        }
                        os.insert(0, o1);
                        Ok((sf, os))
                    },
                    Err(sf) => Err(sf),
                }
            },
        }
    }
}

/// Repeats `q` at least `m` and at most `n` times.
fn process_many_mn(q: &Parser, m: usize, n: usize, st: State) -> (r: Result<
    (State, Vec<Output>),
    State,
>)
    requires
        st@.input.wf(),
    ensures
        match r {
            Ok((s, os)) => run_many_mn(q@, m as int, n as int, st@) == Ok::<_, StateM>(
                (s@, outputs_view(os@)),
            ),
            Err(s) => run_many_mn(q@, m as int, n as int, st@) == Err::<
                (StateM, Seq<OutputM>),
                _,
            >(s@),
        },
    decreases st@.wlen(),
        crate::parser::bound_nat(
            if m >= n {
                m as int
            } else {
                n as int
            },
        ) * (1 + psize(q@)),
        0int,
{
    let ghost st0 = st@;
    let ghost top: int = if m >= n {
        m as int
    } else {
        n as int
    };
    if m > 0 {
        proof {
            vstd::arithmetic::mul::lemma_mul_inequality(
                2,
                bound_nat(top) as int,
                (1 + psize(q@)) as int,
            );
            vstd::arithmetic::mul::lemma_mul_strict_inequality(
                bound_nat(top - 1) as int,
                bound_nat(top) as int,
                (1 + psize(q@)) as int,
            );
        }
        match q.process(st.fork()) {
            Err(s) => Err(s),
            Ok((s1, o1)) => {
                proof {
                    lemma_run_evolves(q@, st0);
                }
                let n2 = if n >= 1 {
                    n - 1
                } else {
                    0
                };
                match process_many_mn(q, m - 1, n2, s1) {
                    Ok((sf, mut os)) => {
                        proof {
                            lemma_outputs_view_insert0(os@, o1);
                        }
                        os.insert(0, o1);
                        Ok((sf, os))
                    },
                    Err(sf) => Err(sf),
                }
            },
        }
    } else if n == 0 {
        Ok((st, Vec::new()))
    } else {
        proof {
            vstd::arithmetic::mul::lemma_mul_inequality(
                2,
                bound_nat(top) as int,
                (1 + psize(q@)) as int,
            );
        }
        let n0 = st.as_input().len();
        match q.process(st.fork()) {
            Err(_) => Ok((st, Vec::new())),
            Ok((s1, o1)) => {
                proof {
                    lemma_run_evolves(q@, st0);
                }
                let n1 = s1.as_input().len();
                if n1 < n0 {
                    match process_many_mn(q, 0, n - 1, s1) {
                        Ok((sf, mut os)) => {
                            proof {
                                lemma_outputs_view_insert0(os@, o1);
                            }
                            os.insert(0, o1);
                            Ok((sf, os))
                        },
                        Err(sf) => Err(sf),
                    }
                } else {
                    Ok((st, Vec::new()))
                }
            },
        }
    }
}

/// Repeats `p` until `u` matches, trying `u` first at every step.
fn process_many_until(p: &Parser, u: &Parser, st: State) -> (r: Result<
    (State, Vec<Output>, Output),
    State,
>)
    requires
        st@.input.wf(),
    ensures
        match r {
            Ok((s, os, ou)) => run_many_until(p@, u@, st@) == Ok::<_, StateM>(
                (s@, outputs_view(os@), output_view(ou)),
            ),
            Err(s) => run_many_until(p@, u@, st@) == Err::<
                (StateM, Seq<OutputM>, OutputM),
                _,
            >(s@),
        },
    decreases st@.wlen(), psize(p@) + psize(u@) + 1, 0int,
{
    let ghost st0 = st@;
    match u.process(st.fork()) {
        Ok((su, ou)) => Ok((su, Vec::new(), ou)),
        Err(_) => {
            let n0 = st.as_input().len();
            match p.process(st.fork()) {
                Err(s) => Err(s),
                Ok((s1, o1)) => {
                    proof {
                        lemma_run_evolves(p@, st0);
                    }
                    let n1 = s1.as_input().len();
                    if n1 < n0 {
                        match process_many_until(p, u, s1) {
                            Ok((sf, mut os, ou)) => {
                                proof {
                                    lemma_outputs_view_insert0(os@, o1);
                                }
                                os.insert(0, o1);
                                Ok((sf, os, ou))
                            },
                            Err(sf) => Err(sf),
                        }
                    } else {
                        let from = s1.as_input().take(0).span();
                        Err(fail_expected(s1, ExpectedError::Anything, from))
                    }
                },
            }
        },
    }
}

/// The tail of a separated list: separator-then-item pairs, repeated.
fn process_sep_tail(p: &Parser, sep: &Parser, dangling: bool, st: State) -> (r: Result<
    (State, Vec<Output>),
    State,
>)
    requires
        st@.input.wf(),
    ensures
        match r {
            Ok((s, os)) => run_sep_tail(p@, sep@, dangling, st@) == Ok::<_, StateM>(
                (s@, outputs_view(os@)),
            ),
            Err(s) => run_sep_tail(p@, sep@, dangling, st@) == Err::<(StateM, Seq<OutputM>), _>(
                s@,
            ),
        },
    decreases st@.wlen(), 1 + psize(p@) + psize(sep@), 0int,
{
    let ghost st0 = st@;
    let n0 = st.as_input().len();
    match sep.process(st.fork()) {
        Err(_) => Ok((st, Vec::new())),
        Ok((s2, _osep)) => {
            proof {
                lemma_run_evolves(sep@, st0);
            }
            match p.process(s2.fork()) {
                Err(s3) => {
                    if dangling {
                        Ok((s2, Vec::new()))
                    } else {
                        Err(s3)
                    }
                },
                Ok((s3, o)) => {
                    proof {
                        lemma_run_evolves(p@, s2@);
                    }
                    let n3 = s3.as_input().len();
                    if n3 < n0 {
                        match process_sep_tail(p, sep, dangling, s3) {
                            Ok((sf, mut os)) => {
                                proof {
                                    lemma_outputs_view_insert0(os@, o);
                                }
                                os.insert(0, o);
                                Ok((sf, os))
                            },
                            Err(sf) => Err(sf),
                        }
                    } else {
                        Ok((st, Vec::new()))
                    }
                },
            }
        },
    }
}

impl Output {
    /// The matched region held by the output, if it is a match.
    pub fn into_matched(self) -> (r: Option<Input>)
        ensures
            match r {
                Some(i) => self@ == OutputM::Matched(i@),
                None => !(self@ is Matched),
            },
    {
        match self {
            Output::Matched(i) => Some(i),
            _ => None,
        }
    }

    /// The two halves of the output, if it is a pair.
    pub fn into_pair(self) -> (r: Option<(Output, Output)>)
        ensures
            match r {
                Some(p) => self@ == OutputM::Pair(Box::new(p.0@), Box::new(p.1@)),
                None => !(self@ is Pair),
            },
    {
        match self {
            Output::Pair(a, b) => Some((*a, *b)),
            _ => None,
        }
    }

    /// The collected outputs, if the output is a list.
    pub fn into_list(self) -> (r: Option<Vec<Output>>)
        ensures
            match r {
                Some(os) => self@ == OutputM::List(outputs_view(os@)),
                None => !(self@ is List),
            },
    {
        match self {
            Output::List(os) => Some(os),
            _ => None,
        }
    }

    /// The possibly absent output, if the output is of that shape.
    pub fn into_maybe(self) -> (r: Option<Option<Output>>)
        ensures
            match r {
                Some(x) => match x {
                    Some(o) => self@ == OutputM::Maybe(Some(Box::new(o@))),
                    None => self@ == OutputM::Maybe(None),
                },
                None => !(self@ is Maybe),
            },
    {
        match self {
            Output::Maybe(Some(o)) => Some(Some(*o)),
            Output::Maybe(None) => Some(None),
            _ => None,
        }
    }
}

impl Parser {
    /// Processes a parser state and returns the new state with the output,
    /// or the state carrying the error. This is the function to use when
    /// composing parsers by hand; its behaviour is exactly
    /// [`crate::semantics::run`].
    #[verifier::rlimit(100)]
    pub fn process(&self, state: State) -> (r: PResult)
        requires
            state@.input.wf(),
        ensures
            pres_view(r) == run(self@, state@),
        decreases state@.wlen(), psize(self@), 1int,
    {
        let ghost st0 = state@;
        match self {
            Parser::Is(m) => process_is(m, state),
            Parser::Not(q) => {
                let ghost qm = parser_view(*&**q);
                match q.process(state.fork()) {
                    Ok((s1, _o)) => {
                        proof {
                            lemma_run_evolves(qm, st0);
                        }
                        let found = state.as_input().subtract(s1.as_input());
                        let from = found.span();
                        let w = found.as_inner();
                        Err(fail_expected(state, ExpectedError::Not(w), from))
                    },
                    Err(_) => Ok((state, Output::Unit)),
                }
            },
            Parser::Id => {
                let inp = state.as_input().fork();
                let rest = inp.skip_all();
                Ok((state.with_input(rest), Output::Matched(inp)))
            },
            Parser::Eoi => {
                if state.as_input().is_empty() {
                    Ok((state, Output::Unit))
                } else {
                    let from = state.as_input().span();
                    Err(fail_expected(state, ExpectedError::Nothing, from))
                }
            },
            Parser::Take(n) => {
                let len = state.as_input().len();
                if *n <= len {
                    let taken = state.as_input().take(*n);
                    let skipped = state.as_input().skip(*n);
                    Ok((state.with_input(skipped), Output::Matched(taken)))
                } else {
                    let skipped = state.as_input().skip_all();
                    let from = skipped.span();
                    Err(
                        fail_expected(
                            state.with_input(skipped),
                            ExpectedError::Anything,
                            from,
                        ),
                    )
                }
            },
            Parser::TakeUntil(u) => {
                let orig = state.as_input().fork();
                process_take_until(u, state, &orig)
            },
            Parser::DecimalDigit => process_class(state, GlyphClass::Digit10, false),
            Parser::Decimal => process_class(state, GlyphClass::Digit10, true),
            Parser::HexadecimalDigit => process_class(state, GlyphClass::Digit16, false),
            Parser::Hexadecimal => process_class(state, GlyphClass::Digit16, true),
            Parser::AlphabeticChar => process_class(state, GlyphClass::Alpha, false),
            Parser::Alphabetic => process_class(state, GlyphClass::Alpha, true),
            Parser::AlphanumericChar => process_class(state, GlyphClass::AlphaNum, false),
            Parser::Alphanumeric => process_class(state, GlyphClass::AlphaNum, true),
            Parser::Whitespace => process_class(state, GlyphClass::Ws, true),
            Parser::WhitespaceNotNewline => process_class(state, GlyphClass::WsNoNl, true),
            Parser::Newlines => process_class(state, GlyphClass::Nl, true),
            Parser::Then(a, b) => {
                match a.process(state) {
                    Err(s) => Err(s),
                    Ok((s1, o1)) => {
                        proof {
                            lemma_run_evolves(parser_view(*&**a), st0);
                        }
                        match b.process(s1) {
                            Err(s) => Err(s),
                            Ok((s2, o2)) => Ok(
                                (s2, Output::Pair(Box::new(o1), Box::new(o2))),
                            ),
                        }
                    },
                }
            },
            Parser::Any(ps) => {
                proof {
                    assert(parsers_view(ps@).skip(0) =~= parsers_view(ps@));
                }
                match process_alt(ps, 0, state) {
                    AltRes::Win(s, o) => {
                        assert(parsers_view(ps@).skip(0) =~= parsers_view(ps@));
                        Ok((s, o))
                    },
                    AltRes::Halt(s) => {
                        assert(parsers_view(ps@).skip(0) =~= parsers_view(ps@));
                        Err(s)
                    },
                    AltRes::Fails(s, es) => {
                        assert(parsers_view(ps@).skip(0) =~= parsers_view(ps@));
                        let sp = union_spans(&es);
                        Err(s.with_error(Error::new(ErrorKind::all(es), sp)))
                    },
                }
            },
            Parser::Commit(q) => {
                match q.process(state) {
                    Ok(r) => Ok(r),
                    Err(s) => {
                        let (inp, err) = s.into_parts();
                        Err(State::assemble(inp, err.commit()))
                    },
                }
            },
            Parser::Maybe(q) => {
                match q.process(state.fork()) {
                    Ok((s, o)) => Ok((s, Output::Maybe(Some(Box::new(o))))),
                    Err(_) => Ok((state, Output::Maybe(None))),
                }
            },
            Parser::Many(q) => {
                let (s, os) = process_many(q, state);
                Ok((s, Output::List(os)))
            },
            Parser::ManyN(n, q) => {
                match process_many_n(q, *n, state) {
                    Ok((s, os)) => Ok((s, Output::List(os))),
                    Err(s) => Err(s),
                }
            },
            Parser::ManyMN(m, n, q) => {
                match process_many_mn(q, *m, *n, state) {
                    Ok((s, os)) => Ok((s, Output::List(os))),
                    Err(s) => Err(s),
                }
            },
            Parser::ManyUntil(a, b) => {
                match process_many_until(a, b, state) {
                    Ok((s, os, ou)) => {
                        let r = Ok(
                            (s, Output::Pair(Box::new(Output::List(os)), Box::new(ou))),
                        );
                        proof {
                            reveal_with_fuel(output_view, 3);
                        }
                        r
                    },
                    Err(s) => Err(s),
                }
            },
            Parser::Separated(a, b, dangling) => {
                match a.process(state) {
                    Err(s) => Err(s),
                    Ok((s1, o1)) => {
                        proof {
                            lemma_run_evolves(parser_view(*&**a), st0);
                        }
                        match process_sep_tail(a, b, *dangling, s1) {
                            Ok((sf, mut os)) => {
                                proof {
                                    lemma_outputs_view_insert0(os@, o1);
                                }
                                os.insert(0, o1);
                                Ok((sf, Output::List(os)))
                            },
                            Err(sf) => Err(sf),
                        }
                    },
                }
            },
            Parser::Between(a, b, c) => {
                match a.process(state) {
                    Err(s) => Err(s),
                    Ok((s1, _o1)) => {
                        proof {
                            lemma_run_evolves(parser_view(*&**a), st0);
                            lemma_run_evolves(parser_view(*&**b), s1@);
                        }
                        match b.process(s1) {
                            Err(s) => Err(s),
                            Ok((s2, o2)) => {
                                match c.process(s2) {
                                    Err(s) => Err(s),
                                    Ok((s3, _o3)) => Ok((s3, o2)),
                                }
                            },
                        }
                    },
                }
            },
            Parser::PanicRecover(a, b) => {
                match a.process(state) {
                    Ok((s, o)) => Ok((s, Output::Maybe(Some(Box::new(o))))),
                    Err(se) => {
                        proof {
                            lemma_run_evolves(parser_view(*&**a), st0);
                        }
                        let orig = se.as_input().fork();
                        match process_take_until(b, se, &orig) {
                            Ok((s2, _taken)) => Ok((s2, Output::Maybe(None))),
                            Err(s2) => Err(s2),
                        }
                    },
                }
            },
            Parser::Consumed(q) => {
                let ghost qm = parser_view(*&**q);
                match q.process(state.fork()) {
                    Err(s) => Err(s),
                    Ok((s1, _o)) => {
                        proof {
                            lemma_run_evolves(qm, st0);
                        }
                        let found = state.as_input().subtract(s1.as_input());
                        Ok((s1, Output::Matched(found)))
                    },
                }
            },
        }
    }

    /// Parses a whole buffer: runs the parser on a fresh state and returns
    /// the output, provided the final state carries no residual error;
    /// otherwise returns the error.
    pub fn parse(&self, input: Vec<u8>) -> (r: Result<Output, Error>)
        ensures
            match r {
                Ok(o) => parse_result(self@, input@) == Ok::<_, ErrorM>(output_view(o)),
                Err(e) => parse_result(self@, input@) == Err::<OutputM, _>(e@),
            },
    {
        let st = State::new(input);
        match self.process(st) {
            Ok((s, o)) => {
                if s.is_err() {
                    let (_inp, err) = s.into_parts();
                    Err(err)
                } else {
                    Ok(o)
                }
            },
            Err(s) => {
                let (_inp, err) = s.into_parts();
                Err(err)
            },
        }
    }
}

} // verus!
