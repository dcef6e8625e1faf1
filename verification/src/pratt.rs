//! The operator-precedence (Pratt) expression engine: a generic
//! prefix/infix/postfix parser driven by operator tables with binding
//! powers, implementing the binding-power climbing algorithm.
//!
//! Precedence comes from registration order: every operator registered
//! later binds more tightly than those registered before it. A
//! left-associative infix operator registered at step `k` gets binding
//! powers `(k, k + 1)`, a right-associative one `(k + 1, k)`, so left
//! chains fold leftward and right chains fold rightward.
//!
//! An operator match that consumes no input is treated as no match, so
//! that expression parsing always terminates.

use crate::parser::{output_view, Output, OutputM, Parser, ParserM};
use crate::semantics::{evolves, lemma_run_evolves, run};
use crate::state::{State, StateM};
use vstd::prelude::*;

verus! {

/// The associativity of an infix operator: left-associative operators
/// parse `1 + 2 + 3` as `(1 + 2) + 3`, right-associative ones parse
/// `a . b . c` as `a . (b . c)`.
#[derive(Debug, Clone, Copy, PartialEq, Eq, Structural)]
pub enum Associativity {
    Left,
    Right,
}

/// A prefix operator: its token parser and its right binding power.
pub struct PrefixOperator {
    p: Parser,
    rbp: usize,
}

/// An infix operator: its token parser and its left and right binding
/// powers.
pub struct InfixOperator {
    p: Parser,
    lbp: usize,
    rbp: usize,
}

/// A postfix operator: its token parser and its left binding power.
pub struct PostfixOperator {
    p: Parser,
    lbp: usize,
}

impl View for PrefixOperator {
    type V = (ParserM, int);

    closed spec fn view(&self) -> (ParserM, int) {
        (self.p@, self.rbp as int)
    }
}

impl View for InfixOperator {
    type V = (ParserM, int, int);

    closed spec fn view(&self) -> (ParserM, int, int) {
        (self.p@, self.lbp as int, self.rbp as int)
    }
}

impl View for PostfixOperator {
    type V = (ParserM, int);

    closed spec fn view(&self) -> (ParserM, int) {
        (self.p@, self.lbp as int)
    }
}

pub open spec fn prefix_view(s: Seq<PrefixOperator>) -> Seq<(ParserM, int)>
    decreases s,
{
    if s.len() == 0 {
        Seq::empty()
    } else {
        prefix_view(s.drop_last()).push(s.last()@)
    }
}

pub open spec fn infix_view(s: Seq<InfixOperator>) -> Seq<(ParserM, int, int)>
    decreases s,
{
    if s.len() == 0 {
        Seq::empty()
    } else {
        infix_view(s.drop_last()).push(s.last()@)
    }
}

pub open spec fn postfix_view(s: Seq<PostfixOperator>) -> Seq<(ParserM, int)>
    decreases s,
{
    if s.len() == 0 {
        Seq::empty()
    } else {
        postfix_view(s.drop_last()).push(s.last()@)
    }
}

pub proof fn lemma_prefix_view(s: Seq<PrefixOperator>)
    ensures
        prefix_view(s).len() == s.len(),
        forall|i: int| 0 <= i < s.len() ==> prefix_view(s)[i] == s[i]@,
    decreases s,
{
    if s.len() > 0 {
        lemma_prefix_view(s.drop_last());
    }
}

pub proof fn lemma_infix_view(s: Seq<InfixOperator>)
    ensures
        infix_view(s).len() == s.len(),
        forall|i: int| 0 <= i < s.len() ==> infix_view(s)[i] == s[i]@,
    decreases s,
{
    if s.len() > 0 {
        lemma_infix_view(s.drop_last());
    }
}

pub proof fn lemma_postfix_view(s: Seq<PostfixOperator>)
    ensures
        postfix_view(s).len() == s.len(),
        forall|i: int| 0 <= i < s.len() ==> postfix_view(s)[i] == s[i]@,
    decreases s,
{
    if s.len() > 0 {
        lemma_postfix_view(s.drop_last());
    }
}

/// Mathematical model of an expression tree: atoms combined by the
/// matched operator tokens.
pub enum ExprM {
    Atom(OutputM),
    Prefix(OutputM, Box<ExprM>),
    Infix(Box<ExprM>, OutputM, Box<ExprM>),
    Postfix(Box<ExprM>, OutputM),
}

/// An expression the engine builds: an atom, or operators applied to
/// sub-expressions. Each operator node carries the output of the
/// operator's own token parser.
#[derive(Debug, PartialEq)]
pub enum Expr {
    Atom(Output),
    Prefix(Output, Box<Expr>),
    Infix(Box<Expr>, Output, Box<Expr>),
    Postfix(Box<Expr>, Output),
}

pub open spec fn expr_view(e: Expr) -> ExprM
    decreases e,
{
    match e {
        Expr::Atom(o) => ExprM::Atom(output_view(o)),
        Expr::Prefix(o, rhs) => ExprM::Prefix(output_view(o), Box::new(expr_view(*rhs))),
        Expr::Infix(lhs, o, rhs) => ExprM::Infix(
            Box::new(expr_view(*lhs)),
            output_view(o),
            Box::new(expr_view(*rhs)),
        ),
        Expr::Postfix(lhs, o) => ExprM::Postfix(Box::new(expr_view(*lhs)), output_view(o)),
    }
}

impl View for Expr {
    type V = ExprM;

    open spec fn view(&self) -> ExprM {
        expr_view(*self)
    }
}

/// Mathematical model of a Pratt parser: the atom parser, the three
/// operator tables with their binding powers, and the next power to hand
/// out.
pub struct PrattM {
    pub atom: ParserM,
    pub prefix: Seq<(ParserM, int)>,
    pub infix: Seq<(ParserM, int, int)>,
    pub postfix: Seq<(ParserM, int)>,
    pub next: int,
}

/// The first prefix operator whose token parser succeeds on the state,
/// with its result and right binding power.
pub open spec fn try_prefix(ops: Seq<(ParserM, int)>, st: StateM) -> Option<
    (StateM, OutputM, int),
>
    decreases ops.len(),
{
    if ops.len() == 0 {
        None
    } else {
        match run(ops[0].0, st) {
            Ok((s, o)) => Some((s, o, ops[0].1)),
            Err(_) => try_prefix(ops.drop_first(), st),
        }
    }
}

/// The first infix operator whose token parser succeeds on the state,
/// with its result and both binding powers.
pub open spec fn try_infix(ops: Seq<(ParserM, int, int)>, st: StateM) -> Option<
    (StateM, OutputM, int, int),
>
    decreases ops.len(),
{
    if ops.len() == 0 {
        None
    } else {
        match run(ops[0].0, st) {
            Ok((s, o)) => Some((s, o, ops[0].1, ops[0].2)),
            Err(_) => try_infix(ops.drop_first(), st),
        }
    }
}

/// The first postfix operator whose token parser succeeds on the state,
/// with its result and left binding power.
pub open spec fn try_postfix(ops: Seq<(ParserM, int)>, st: StateM) -> Option<
    (StateM, OutputM, int),
>
    decreases ops.len(),
{
    if ops.len() == 0 {
        None
    } else {
        match run(ops[0].0, st) {
            Ok((s, o)) => Some((s, o, ops[0].1)),
            Err(_) => try_postfix(ops.drop_first(), st),
        }
    }
}

/// One climb of the Pratt algorithm: a prefix operator (consuming input)
/// binds its operand at its right binding power; otherwise the atom
/// parser supplies the left-hand side; then operators at or above
/// `min_bp` are folded in.
pub open spec fn pratt_run(t: PrattM, st: StateM, min_bp: int) -> Result<(StateM, ExprM), StateM>
    decreases st.wlen(), 2int,
{
    match try_prefix(t.prefix, st) {
        Some((s1, op, rbp)) => if s1.wlen() < st.wlen() {
            match pratt_run(t, s1, rbp) {
                Ok((s2, rhs)) => if s2.wlen() <= st.wlen() {
                    pratt_loop(t, s2, ExprM::Prefix(op, Box::new(rhs)), min_bp)
                } else {
                    Err(st)
                },
                Err(s2) => Err(s2),
            }
        } else {
            pratt_atom(t, st, min_bp)
        },
        None => pratt_atom(t, st, min_bp),
    }
}

/// The atom path: the atom parser supplies the left-hand side.
pub open spec fn pratt_atom(t: PrattM, st: StateM, min_bp: int) -> Result<
    (StateM, ExprM),
    StateM,
>
    decreases st.wlen(), 1int,
{
    match run(t.atom, st) {
        Err(s) => Err(s),
        Ok((s1, a)) => if s1.wlen() <= st.wlen() {
            pratt_loop(t, s1, ExprM::Atom(a), min_bp)
        } else {
            Err(st)
        },
    }
}

/// The folding loop: a postfix operator at or above `min_bp` is folded
/// onto the left-hand side; otherwise an infix operator at or above
/// `min_bp` parses its right operand at its right binding power and is
/// folded in; anything weaker, or no operator at all, ends the climb.
pub open spec fn pratt_loop(t: PrattM, st: StateM, lhs: ExprM, min_bp: int) -> Result<
    (StateM, ExprM),
    StateM,
>
    decreases st.wlen(), 0int,
{
    match try_postfix(t.postfix, st) {
        Some((s1, op, lbp)) => if lbp < min_bp {
            Ok((st, lhs))
        } else if s1.wlen() < st.wlen() {
            pratt_loop(t, s1, ExprM::Postfix(Box::new(lhs), op), min_bp)
        } else {
            Ok((st, lhs))
        },
        None => match try_infix(t.infix, st) {
            Some((s1, op, lbp, rbp)) => if lbp < min_bp {
                Ok((st, lhs))
            } else if s1.wlen() < st.wlen() {
                match pratt_run(t, s1, rbp) {
                    Err(s2) => Err(s2),
                    Ok((s2, rhs)) => {
                        let folded = ExprM::Infix(Box::new(lhs), op, Box::new(rhs));
                        if s2.wlen() < st.wlen() {
                            pratt_loop(t, s2, folded, min_bp)
                        } else {
                            Ok((s2, folded))
                        }
                    },
                }
            } else {
                Ok((st, lhs))
            },
            None => Ok((st, lhs)),
        },
    }
}

proof fn lemma_try_prefix_evolves(ops: Seq<(ParserM, int)>, st: StateM)
    ensures
        match try_prefix(ops, st) {
            Some((s, _o, _bp)) => evolves(st, s),
            None => true,
        },
    decreases ops.len(),
{
    if ops.len() > 0 {
        lemma_run_evolves(ops[0].0, st);
        if run(ops[0].0, st) is Err {
            lemma_try_prefix_evolves(ops.drop_first(), st);
        }
    }
}

proof fn lemma_try_infix_evolves(ops: Seq<(ParserM, int, int)>, st: StateM)
    ensures
        match try_infix(ops, st) {
            Some((s, _o, _l, _r)) => evolves(st, s),
            None => true,
        },
    decreases ops.len(),
{
    if ops.len() > 0 {
        lemma_run_evolves(ops[0].0, st);
        if run(ops[0].0, st) is Err {
            lemma_try_infix_evolves(ops.drop_first(), st);
        }
    }
}

proof fn lemma_try_postfix_evolves(ops: Seq<(ParserM, int)>, st: StateM)
    ensures
        match try_postfix(ops, st) {
            Some((s, _o, _bp)) => evolves(st, s),
            None => true,
        },
    decreases ops.len(),
{
    if ops.len() > 0 {
        lemma_run_evolves(ops[0].0, st);
        if run(ops[0].0, st) is Err {
            lemma_try_postfix_evolves(ops.drop_first(), st);
        }
    }
}

/// The state the engine returns evolves from the starting state.
#[verifier::rlimit(100)]
pub proof fn lemma_pratt_evolves(t: PrattM, st: StateM, min_bp: int)
    ensures
        match pratt_run(t, st, min_bp) {
            Ok((s, _e)) => evolves(st, s),
            Err(s) => evolves(st, s),
        },
    decreases st.wlen(), 2int,
{
    lemma_try_prefix_evolves(t.prefix, st);
    match try_prefix(t.prefix, st) {
        Some((s1, op, rbp)) => {
            if s1.wlen() < st.wlen() {
                lemma_pratt_evolves(t, s1, rbp);
                if let Ok((s2, rhs)) = pratt_run(t, s1, rbp) {
                    if s2.wlen() <= st.wlen() {
                        lemma_pratt_loop_evolves(
                            t,
                            s2,
                            ExprM::Prefix(op, Box::new(rhs)),
                            min_bp,
                        );
                    }
                }
            } else {
                lemma_pratt_atom_evolves(t, st, min_bp);
            }
        },
        None => {
            lemma_pratt_atom_evolves(t, st, min_bp);
        },
    }
}

proof fn lemma_pratt_atom_evolves(t: PrattM, st: StateM, min_bp: int)
    ensures
        match pratt_atom(t, st, min_bp) {
            Ok((s, _e)) => evolves(st, s),
            Err(s) => evolves(st, s),
        },
    decreases st.wlen(), 1int,
{
    lemma_run_evolves(t.atom, st);
    if let Ok((s1, a)) = run(t.atom, st) {
        if s1.wlen() <= st.wlen() {
            lemma_pratt_loop_evolves(t, s1, ExprM::Atom(a), min_bp);
        }
    }
}

proof fn lemma_pratt_loop_evolves(t: PrattM, st: StateM, lhs: ExprM, min_bp: int)
    ensures
        match pratt_loop(t, st, lhs, min_bp) {
            Ok((s, _e)) => evolves(st, s),
            Err(s) => evolves(st, s),
        },
    decreases st.wlen(), 0int,
{
    lemma_try_postfix_evolves(t.postfix, st);
    lemma_try_infix_evolves(t.infix, st);
    match try_postfix(t.postfix, st) {
        Some((s1, op, lbp)) => {
            if lbp >= min_bp && s1.wlen() < st.wlen() {
                lemma_pratt_loop_evolves(t, s1, ExprM::Postfix(Box::new(lhs), op), min_bp);
            }
        },
        None => {
            if let Some((s1, op, lbp, rbp)) = try_infix(t.infix, st) {
                if lbp >= min_bp && s1.wlen() < st.wlen() {
                    lemma_pratt_evolves(t, s1, rbp);
                    if let Ok((s2, rhs)) = pratt_run(t, s1, rbp) {
                        if s2.wlen() < st.wlen() {
                            lemma_pratt_loop_evolves(
                                t,
                                s2,
                                ExprM::Infix(Box::new(lhs), op, Box::new(rhs)),
                                min_bp,
                            );
                        }
                    }
                }
            }
        },
    }
}

/// A Pratt parser: an atom parser plus prefix, infix and postfix
/// operator tables, each entry carrying its binding powers.
pub struct Pratt {
    atom: Parser,
    prefix_ops: Vec<PrefixOperator>,
    infix_ops: Vec<InfixOperator>,
    postfix_ops: Vec<PostfixOperator>,
    next_bp: usize,
}

impl View for Pratt {
    type V = PrattM;

    closed spec fn view(&self) -> PrattM {
        PrattM {
            atom: self.atom@,
            prefix: prefix_view(self.prefix_ops@),
            infix: infix_view(self.infix_ops@),
            postfix: postfix_view(self.postfix_ops@),
            next: self.next_bp as int,
        }
    }
}

impl Pratt {
    /// Creates a new Pratt parser around an atom parser, with empty
    /// operator tables.
    pub fn new(atom: Parser) -> (r: Self)
        ensures
            r@ == (PrattM {
                atom: atom@,
                prefix: Seq::empty(),
                infix: Seq::empty(),
                postfix: Seq::empty(),
                next: 1,
            }),
    {
        let r = Pratt {
            atom,
            prefix_ops: Vec::new(),
            infix_ops: Vec::new(),
            postfix_ops: Vec::new(),
            next_bp: 1,
        };
        proof {
            assert(prefix_view(r.prefix_ops@) =~= Seq::<(ParserM, int)>::empty());
            assert(infix_view(r.infix_ops@) =~= Seq::<(ParserM, int, int)>::empty());
            assert(postfix_view(r.postfix_ops@) =~= Seq::<(ParserM, int)>::empty());
        }
        r
    }

    /// Adds an infix operator with explicit binding powers.
    pub fn with_op(self, p: Parser, lbp: usize, rbp: usize) -> (r: Self)
        ensures
            r@ == (PrattM {
                infix: self@.infix.push((p@, lbp as int, rbp as int)),
                ..self@
            }),
    {
        let mut s = self;
        let ghost pre = s.infix_ops@;
        s.infix_ops.push(InfixOperator { p, lbp, rbp });
        proof {
            assert(s.infix_ops@.drop_last() =~= pre);
        }
        s
    }

    /// Adds an infix operator. It binds more tightly than every operator
    /// registered before it; a left-associative operator gets binding
    /// powers `(k, k + 1)`, a right-associative one `(k + 1, k)`.
    pub fn with_infix_op(self, p: Parser, assoc: Associativity) -> (r: Self)
        requires
            self@.next + 2 <= usize::MAX,
        ensures
            r@ == (PrattM {
                infix: self@.infix.push(
                    match assoc {
                        Associativity::Left => (p@, self@.next, self@.next + 1),
                        Associativity::Right => (p@, self@.next + 1, self@.next),
                    },
                ),
                next: self@.next + 2,
                ..self@
            }),
    {
        let mut s = self;
        let ghost pre = s.infix_ops@;
        let (lbp, rbp) = match assoc {
            Associativity::Left => (s.next_bp, s.next_bp + 1),
            Associativity::Right => (s.next_bp + 1, s.next_bp),
        };
        s.infix_ops.push(InfixOperator { p, lbp, rbp });
        s.next_bp = s.next_bp + 2;
        proof {
            assert(s.infix_ops@.drop_last() =~= pre);
        }
        s
    }

    /// Adds a prefix operator. It binds more tightly than every operator
    /// registered before it.
    pub fn with_prefix_op(self, p: Parser) -> (r: Self)
        requires
            self@.next + 1 <= usize::MAX,
        ensures
            r@ == (PrattM {
                prefix: self@.prefix.push((p@, self@.next)),
                next: self@.next + 1,
                ..self@
            }),
    {
        let mut s = self;
        let ghost pre = s.prefix_ops@;
        let rbp = s.next_bp;
        s.prefix_ops.push(PrefixOperator { p, rbp });
        s.next_bp = s.next_bp + 1;
        proof {
            assert(s.prefix_ops@.drop_last() =~= pre);
        }
        s
    }

    /// Adds a postfix operator. It binds more tightly than every
    /// operator registered before it.
    pub fn with_postfix_op(self, p: Parser) -> (r: Self)
        requires
            self@.next + 1 <= usize::MAX,
        ensures
            r@ == (PrattM {
                postfix: self@.postfix.push((p@, self@.next)),
                next: self@.next + 1,
                ..self@
            }),
    {
        let mut s = self;
        let ghost pre = s.postfix_ops@;
        let lbp = s.next_bp;
        s.postfix_ops.push(PostfixOperator { p, lbp });
        s.next_bp = s.next_bp + 1;
        proof {
            assert(s.postfix_ops@.drop_last() =~= pre);
        }
        s
    }

    /// Processes a state: parses one whole expression, starting the
    /// climb at the weakest binding power.
    pub fn process(&self, state: State) -> (r: Result<(State, Expr), State>)
        requires
            state@.input.wf(),
        ensures
            match r {
                Ok((s, e)) => pratt_run(self@, state@, 0) == Ok::<_, StateM>((s@, e@)),
                Err(s) => pratt_run(self@, state@, 0) == Err::<(StateM, ExprM), _>(s@),
            },
    {
        self.pratt(state, 0)
    }

    /// The climbing step: prefix operator or atom, then the folding
    /// loop.
    fn pratt(&self, state: State, min_bp: usize) -> (r: Result<(State, Expr), State>)
        requires
            state@.input.wf(),
        ensures
            match r {
                Ok((s, e)) => pratt_run(self@, state@, min_bp as int) == Ok::<_, StateM>(
                    (s@, e@),
                ),
                Err(s) => pratt_run(self@, state@, min_bp as int) == Err::<(StateM, ExprM), _>(
                    s@,
                ),
            },
        decreases state@.wlen(), 2int,
    {
        let ghost st0 = state@;
        let n0 = state.as_input().len();
        match try_prefix_exec(&self.prefix_ops, 0, &state) {
            Some((s1, op, rbp)) => {
                proof {
                    assert(prefix_view(self.prefix_ops@).skip(0) =~= prefix_view(
                        self.prefix_ops@,
                    ));
                    lemma_try_prefix_evolves(self@.prefix, st0);
                }
                let n1 = s1.as_input().len();
                if n1 < n0 {
                    match self.pratt(s1, rbp) {
                        Ok((s2, rhs)) => {
                            proof {
                                lemma_pratt_evolves(self@, s1@, rbp as int);
                            }
                            self.pratt_fold(s2, Expr::Prefix(op, Box::new(rhs)), min_bp)
                        },
                        Err(s2) => Err(s2),
                    }
                } else {
                    self.pratt_start(state, min_bp)
                }
            },
            None => {
                proof {
                    assert(prefix_view(self.prefix_ops@).skip(0) =~= prefix_view(
                        self.prefix_ops@,
                    ));
                }
                self.pratt_start(state, min_bp)
            },
        }
    }

    /// The atom path of the climb.
    fn pratt_start(&self, state: State, min_bp: usize) -> (r: Result<(State, Expr), State>)
        requires
            state@.input.wf(),
        ensures
            match r {
                Ok((s, e)) => pratt_atom(self@, state@, min_bp as int) == Ok::<_, StateM>(
                    (s@, e@),
                ),
                Err(s) => pratt_atom(self@, state@, min_bp as int) == Err::<
                    (StateM, ExprM),
                    _,
                >(s@),
            },
        decreases state@.wlen(), 1int,
    {
        let ghost st0 = state@;
        match self.atom.process(state) {
            Err(s) => Err(s),
            Ok((s1, a)) => {
                proof {
                    lemma_run_evolves(self@.atom, st0);
                }
                self.pratt_fold(s1, Expr::Atom(a), min_bp)
            },
        }
    }

    /// The folding loop of the climb.
    fn pratt_fold(&self, state: State, lhs: Expr, min_bp: usize) -> (r: Result<
        (State, Expr),
        State,
    >)
        requires
            state@.input.wf(),
        ensures
            match r {
                Ok((s, e)) => pratt_loop(self@, state@, lhs@, min_bp as int) == Ok::<_, StateM>(
                    (s@, e@),
                ),
                Err(s) => pratt_loop(self@, state@, lhs@, min_bp as int) == Err::<
                    (StateM, ExprM),
                    _,
                >(s@),
            },
        decreases state@.wlen(), 0int,
    {
        let ghost st0 = state@;
        let n0 = state.as_input().len();
        proof {
            assert(postfix_view(self.postfix_ops@).skip(0) =~= postfix_view(self.postfix_ops@));
            assert(infix_view(self.infix_ops@).skip(0) =~= infix_view(self.infix_ops@));
            lemma_try_postfix_evolves(self@.postfix, st0);
            lemma_try_infix_evolves(self@.infix, st0);
        }
        match try_postfix_exec(&self.postfix_ops, 0, &state) {
            Some((s1, op, lbp)) => {
                if lbp < min_bp {
                    Ok((state, lhs))
                } else {
                    let n1 = s1.as_input().len();
                    if n1 < n0 {
                        self.pratt_fold(s1, Expr::Postfix(Box::new(lhs), op), min_bp)
                    } else {
                        Ok((state, lhs))
                    }
                }
            },
            None => {
                match try_infix_exec(&self.infix_ops, 0, &state) {
                    Some((s1, op, lbp, rbp)) => {
                        if lbp < min_bp {
                            Ok((state, lhs))
                        } else {
                            let n1 = s1.as_input().len();
                            if n1 < n0 {
                                proof {
                                    lemma_pratt_evolves(self@, s1@, rbp as int);
                                }
                                match self.pratt(s1, rbp) {
                                    Err(s2) => Err(s2),
                                    Ok((s2, rhs)) => {
                                        let folded = Expr::Infix(
                                            Box::new(lhs),
                                            op,
                                            Box::new(rhs),
                                        );
                                        let n2 = s2.as_input().len();
                                        if n2 < n0 {
                                            self.pratt_fold(s2, folded, min_bp)
                                        } else {
                                            Ok((s2, folded))
                                        }
                                    },
                                }
                            } else {
                                Ok((state, lhs))
                            }
                        }
                    },
                    None => Ok((state, lhs)),
                }
            },
        }
    }
}

/// Tries the prefix operators from index `i` on, each on a fork of the
/// state; the first whose token parser succeeds wins.
fn try_prefix_exec(ops: &Vec<PrefixOperator>, i: usize, st: &State) -> (r: Option<
    (State, Output, usize),
>)
    requires
        st@.input.wf(),
        i <= ops@.len(),
    ensures
        match r {
            Some((s, o, bp)) => try_prefix(prefix_view(ops@).skip(i as int), st@) == Some(
                (s@, output_view(o), bp as int),
            ),
            None => try_prefix(prefix_view(ops@).skip(i as int), st@) is None,
        },
    decreases ops@.len() - i,
{
    proof {
        lemma_prefix_view(ops@);
    }
    let ghost tail = prefix_view(ops@).skip(i as int);
    if i == ops.len() {
        assert(tail =~= Seq::<(ParserM, int)>::empty());
        None
    } else {
        assert(tail[0] == ops@[i as int]@);
        assert(tail.drop_first() =~= prefix_view(ops@).skip(i + 1 as int));
        match ops[i].p.process(st.fork()) {
            Ok((s, o)) => Some((s, o, ops[i].rbp)),
            Err(_) => try_prefix_exec(ops, i + 1, st),
        }
    }
}

/// Tries the infix operators from index `i` on, each on a fork of the
/// state; the first whose token parser succeeds wins.
fn try_infix_exec(ops: &Vec<InfixOperator>, i: usize, st: &State) -> (r: Option<
    (State, Output, usize, usize),
>)
    requires
        st@.input.wf(),
        i <= ops@.len(),
    ensures
        match r {
            Some((s, o, l, rb)) => try_infix(infix_view(ops@).skip(i as int), st@) == Some(
                (s@, output_view(o), l as int, rb as int),
            ),
            None => try_infix(infix_view(ops@).skip(i as int), st@) is None,
        },
    decreases ops@.len() - i,
{
    proof {
        lemma_infix_view(ops@);
    }
    let ghost tail = infix_view(ops@).skip(i as int);
    if i == ops.len() {
        assert(tail =~= Seq::<(ParserM, int, int)>::empty());
        None
    } else {
        assert(tail[0] == ops@[i as int]@);
        assert(tail.drop_first() =~= infix_view(ops@).skip(i + 1 as int));
        match ops[i].p.process(st.fork()) {
            Ok((s, o)) => Some((s, o, ops[i].lbp, ops[i].rbp)),
            Err(_) => try_infix_exec(ops, i + 1, st),
        }
    }
}

/// Tries the postfix operators from index `i` on, each on a fork of the
/// state; the first whose token parser succeeds wins.
fn try_postfix_exec(ops: &Vec<PostfixOperator>, i: usize, st: &State) -> (r: Option<
    (State, Output, usize),
>)
    requires
        st@.input.wf(),
        i <= ops@.len(),
    ensures
        match r {
            Some((s, o, bp)) => try_postfix(postfix_view(ops@).skip(i as int), st@) == Some(
                (s@, output_view(o), bp as int),
            ),
            None => try_postfix(postfix_view(ops@).skip(i as int), st@) is None,
        },
    decreases ops@.len() - i,
{
    proof {
        lemma_postfix_view(ops@);
    }
    let ghost tail = postfix_view(ops@).skip(i as int);
    if i == ops.len() {
        assert(tail =~= Seq::<(ParserM, int)>::empty());
        None
    } else {
        assert(tail[0] == ops@[i as int]@);
        assert(tail.drop_first() =~= postfix_view(ops@).skip(i + 1 as int));
        match ops[i].p.process(st.fork()) {
            Ok((s, o)) => Some((s, o, ops[i].lbp)),
            Err(_) => try_postfix_exec(ops, i + 1, st),
        }
    }
}

} // verus!
