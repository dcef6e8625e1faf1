//! The laws the library guarantees, stated over the mathematical models
//! and proved once and for all: span algebra, fork independence,
//! alternation determinism, commit short-circuit, and the totality of
//! unbounded repetition.

use crate::errors::{ErrorM, KindM};
use crate::parser::{OutputM, ParserM};
use crate::semantics::{run, run_alt, spans_union, AltM};
use crate::span::SpanM;
use crate::state::StateM;
use vstd::prelude::*;

verus! {

/// The union of two overlapping spans is at least as long as either of
/// them.
pub proof fn lemma_span_union_length(a: SpanM, b: SpanM)
    requires
        a.wf(),
        b.wf(),
        a.is_overlapping(b),
    ensures
        a.union(b).len() >= a.len(),
        a.union(b).len() >= b.len(),
{
}

/// When subtraction is simple (neither span cuts a strict middle piece
/// out of the other), the left fragment, the intersection and the right
/// fragment together cover exactly the union of the two spans.
pub proof fn lemma_span_subtract_cover(a: SpanM, b: SpanM)
    requires
        a.wf(),
        b.wf(),
        a.is_overlapping(b),
        a.simple_subtraction(b),
    ensures
        a.subtract(b).union(a.intersect(b)).union(b.subtract(a)) == a.union(b),
{
}

/// Fork independence. A fork of a state is the same value as its
/// original, and narrowing a fork's window with `take` or `skip` only
/// builds a new input over the same bytes: the span the original state
/// observes is left exactly as it was.
pub proof fn lemma_fork_independence(st: StateM, n: int)
    ensures
        st.input.take(n).bytes == st.input.bytes,
        st.input.skip(n).bytes == st.input.bytes,
        st.input.take(n).span == st.input.span.take(n),
        st.input.skip(n).span == st.input.span.skip(n),
        st.with_input(st.input.take(n)).error == st.error,
        st.with_input(st.input.skip(n)).error == st.error,
{
}

/// Alternation determinism. Trying `p1` then `p2` gives exactly `p1`'s
/// result whenever `p1` succeeds; when `p1` fails without committing,
/// the alternation gives exactly `p2`'s result on the original state —
/// nothing of the failed branch leaks; and when both fail without
/// committing, the alternation reports both errors at once, over the
/// union of their spans.
pub proof fn lemma_alternation_determinism(p1: ParserM, p2: ParserM, st: StateM)
    ensures
        run(p1, st) is Ok ==> run(ParserM::Any(seq![p1, p2]), st) == run(p1, st),
        (run(p1, st) matches Err(s1) && !s1.error.is_committed() && run(p2, st) is Ok) ==> run(
            ParserM::Any(seq![p1, p2]),
            st,
        ) == run(p2, st),
        (run(p1, st) matches Err(s1) && !s1.error.is_committed() && (run(p2, st) matches Err(s2)
            && !s2.error.is_committed())) ==> run(ParserM::Any(seq![p1, p2]), st) == Err::<
            (StateM, OutputM),
            StateM,
        >(
            st.with_error(
                ErrorM {
                    kind: KindM::All(seq![run(p1, st)->Err_0.error, run(p2, st)->Err_0.error]),
                    from: spans_union(
                        seq![run(p1, st)->Err_0.error, run(p2, st)->Err_0.error],
                    ),
                },
            ),
        ),
{
    let ps = seq![p1, p2];
    assert(ps[0] == p1);
    assert(ps.drop_first() =~= seq![p2]);
    assert(ps.drop_first()[0] == p2);
    assert(ps.drop_first().drop_first() =~= Seq::<ParserM>::empty());
    assert(run_alt(Seq::<ParserM>::empty(), st) == AltM::Fails(Seq::<ErrorM>::empty()));
    match run(p1, st) {
        Ok((s, o)) => {
            assert(run_alt(ps, st) == AltM::Win(s, o));
        },
        Err(s1) => {
            if !s1.error.is_committed() {
                match run(p2, st) {
                    Ok((s, o)) => {
                        assert(run_alt(ps.drop_first(), st) == AltM::Win(s, o));
                        assert(run_alt(ps, st) == AltM::Win(s, o));
                    },
                    Err(s2) => {
                        if !s2.error.is_committed() {
                            assert(seq![s2.error] + Seq::<ErrorM>::empty() =~= seq![s2.error]);
                            assert(run_alt(ps.drop_first(), st) == AltM::Fails(seq![s2.error]));
                            assert(seq![s1.error] + seq![s2.error] =~= seq![s1.error, s2.error]);
                            assert(run_alt(ps, st) == AltM::Fails(seq![s1.error, s2.error]));
                        }
                    },
                }
            }
        },
    }
}

/// Commit short-circuit. When `p1` fails, the alternation of
/// `commit(p1)` with any second branch stops at the committed failure:
/// the result does not depend on the second branch at all — it is never
/// run — and the reported error is committed.
pub proof fn lemma_commit_short_circuit(p1: ParserM, p2: ParserM, q2: ParserM, st: StateM)
    requires
        run(p1, st) is Err,
    ensures
        run(ParserM::Any(seq![ParserM::Commit(Box::new(p1)), p2]), st) == run(
            ParserM::Any(seq![ParserM::Commit(Box::new(p1)), q2]),
            st,
        ),
        run(ParserM::Any(seq![ParserM::Commit(Box::new(p1)), p2]), st) matches Err(s)
            && s.error.is_committed(),
{
    let c = ParserM::Commit(Box::new(p1));
    let ps = seq![c, p2];
    let qs = seq![c, q2];
    assert(ps[0] == c);
    assert(qs[0] == c);
    let s1 = run(p1, st)->Err_0;
    assert(run(c, st) == Err::<(StateM, OutputM), StateM>(
        StateM { input: s1.input, error: s1.error.commit() },
    ));
    assert(run_alt(ps, st) == AltM::Halt(
        StateM { input: s1.input, error: s1.error.commit() },
    ));
    assert(run_alt(qs, st) == AltM::Halt(
        StateM { input: s1.input, error: s1.error.commit() },
    ));
}

/// Many totality. Unbounded repetition never fails; and when the
/// repeated parser fails at once, the result is the empty list with the
/// state — input and errors — left exactly as it was.
pub proof fn lemma_many_totality(p: ParserM, st: StateM)
    ensures
        run(ParserM::Many(Box::new(p)), st) is Ok,
        run(p, st) is Err ==> run(ParserM::Many(Box::new(p)), st) == Ok::<
            (StateM, OutputM),
            StateM,
        >((st, OutputM::List(Seq::empty()))),
{
    if run(p, st) is Err {
        assert(crate::semantics::run_many(p, st) == (st, Seq::<OutputM>::empty()));
    }
}

} // verus!
