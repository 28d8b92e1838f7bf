//! Expressions in the indeterminate `X` and in the cells of the trace.
//!
//! There are two layers. An [`Other`] is an expression in `X` alone: it has a
//! degree, a value at each point and stands for one sparse polynomial. An
//! [`Expression`] may also hold trace cells, each given by its column and
//! its row offset; its value depends on what the cells hold.

use crate::error::Error;
use crate::field::FieldElement;
use crate::modular::{
    add_mod, lemma_mul_mod_one, lemma_reduced, lemma_small, modulus, mul_mod, neg_mod, pow_mod,
    sub_mod,
};
use crate::polynomial::sparse::{
    add_terms, canonical, degree_of, eval_terms, lemma_add_canonical, lemma_bounded_widen,
    lemma_degree_bounded, lemma_degree_bounds, lemma_eval_add, lemma_eval_monomial, lemma_eval_mul,
    lemma_eval_neg, lemma_eval_pow, lemma_monomial_canonical, lemma_mul_canonical,
    lemma_poly_lt_order, lemma_pow_canonical, lemma_scale_canonical, monomial_terms, mul_terms,
    neg_terms, poly_lt, pow_terms, SparsePolynomial, Terms,
};
use vstd::prelude::*;

verus! {

/// The model of an expression in `X` alone.
pub enum PolyExpr {
    X,
    Constant(nat),
    PeriodicColumn(Terms),
    Neg(Box<PolyExpr>),
    Add(Box<PolyExpr>, Box<PolyExpr>),
    Mul(Box<PolyExpr>, Box<PolyExpr>),
    Pow(Box<PolyExpr>, nat),
}

/// The model of an expression in `X` and in trace cells.
pub enum TraceExpr {
    Trace(nat, int),
    Poly(PolyExpr),
    Neg(Box<TraceExpr>),
    Add(Box<TraceExpr>, Box<TraceExpr>),
    Mul(Box<TraceExpr>, Box<TraceExpr>),
}

/// The larger of two numbers.
pub open spec fn max_nat(a: nat, b: nat) -> nat {
    if a < b {
        b
    } else {
        a
    }
}

impl PolyExpr {
    /// The degree by the shape of the expression: no cancellation is looked
    /// for.
    pub open spec fn degree(self) -> nat
        decreases self,
    {
        match self {
            PolyExpr::X => 1,
            PolyExpr::Constant(_) => 0,
            PolyExpr::PeriodicColumn(p) => degree_of(p),
            PolyExpr::Neg(a) => a.degree(),
            PolyExpr::Add(a, b) => max_nat(a.degree(), b.degree()),
            PolyExpr::Mul(a, b) => a.degree() + b.degree(),
            PolyExpr::Pow(a, n) => n * a.degree(),
        }
    }

    /// The value at `x`.
    pub open spec fn value(self, x: nat) -> nat
        decreases self,
    {
        match self {
            PolyExpr::X => x % modulus(),
            PolyExpr::Constant(c) => c % modulus(),
            PolyExpr::PeriodicColumn(p) => eval_terms(p, x),
            PolyExpr::Neg(a) => neg_mod(a.value(x)),
            PolyExpr::Add(a, b) => add_mod(a.value(x), b.value(x)),
            PolyExpr::Mul(a, b) => mul_mod(a.value(x), b.value(x)),
            PolyExpr::Pow(a, n) => pow_mod(a.value(x), n),
        }
    }

    /// The sparse polynomial that the expression stands for.
    pub open spec fn reify(self) -> Terms
        decreases self,
    {
        match self {
            PolyExpr::X => monomial_terms(1, 1),
            PolyExpr::Constant(c) => monomial_terms(c, 0),
            PolyExpr::PeriodicColumn(p) => p,
            PolyExpr::Neg(a) => neg_terms(a.reify()),
            PolyExpr::Add(a, b) => add_terms(a.reify(), b.reify()),
            PolyExpr::Mul(a, b) => mul_terms(a.reify(), b.reify()),
            PolyExpr::Pow(a, n) => pow_terms(a.reify(), n),
        }
    }

    /// Every periodic column in the expression is in canonical form.
    pub open spec fn well_formed(self) -> bool
        decreases self,
    {
        match self {
            PolyExpr::X => true,
            PolyExpr::Constant(_) => true,
            PolyExpr::PeriodicColumn(p) => canonical(p),
            PolyExpr::Neg(a) => a.well_formed(),
            PolyExpr::Add(a, b) => a.well_formed() && b.well_formed(),
            PolyExpr::Mul(a, b) => a.well_formed() && b.well_formed(),
            PolyExpr::Pow(a, _) => a.well_formed(),
        }
    }
}

impl TraceExpr {
    /// The degree by the shape of the expression, where each trace column is
    /// a polynomial of degree `trace_length - 1`.
    pub open spec fn degree(self, trace_length: nat) -> nat
        decreases self,
    {
        match self {
            TraceExpr::Trace(_, _) => if trace_length >= 1 {
                (trace_length - 1) as nat
            } else {
                0
            },
            TraceExpr::Poly(p) => p.degree(),
            TraceExpr::Neg(a) => a.degree(trace_length),
            TraceExpr::Add(a, b) => max_nat(a.degree(trace_length), b.degree(trace_length)),
            TraceExpr::Mul(a, b) => a.degree(trace_length) + b.degree(trace_length),
        }
    }

    /// The value at `x`, where `oracle` tells what each trace cell holds.
    pub open spec fn value(self, oracle: spec_fn(nat, int) -> nat, x: nat) -> nat
        decreases self,
    {
        match self {
            TraceExpr::Trace(i, j) => oracle(i, j) % modulus(),
            TraceExpr::Poly(p) => p.value(x),
            TraceExpr::Neg(a) => neg_mod(a.value(oracle, x)),
            TraceExpr::Add(a, b) => add_mod(a.value(oracle, x), b.value(oracle, x)),
            TraceExpr::Mul(a, b) => mul_mod(a.value(oracle, x), b.value(oracle, x)),
        }
    }

    /// Whether the cell of `column` at `offset` occurs in the expression.
    pub open spec fn reads(self, column: nat, offset: int) -> bool
        decreases self,
    {
        match self {
            TraceExpr::Trace(i, j) => i == column && j == offset,
            TraceExpr::Poly(_) => false,
            TraceExpr::Neg(a) => a.reads(column, offset),
            TraceExpr::Add(a, b) => a.reads(column, offset) || b.reads(column, offset),
            TraceExpr::Mul(a, b) => a.reads(column, offset) || b.reads(column, offset),
        }
    }

    /// Every periodic column in the expression is in canonical form.
    pub open spec fn well_formed(self) -> bool
        decreases self,
    {
        match self {
            TraceExpr::Trace(_, _) => true,
            TraceExpr::Poly(p) => p.well_formed(),
            TraceExpr::Neg(a) => a.well_formed(),
            TraceExpr::Add(a, b) => a.well_formed() && b.well_formed(),
            TraceExpr::Mul(a, b) => a.well_formed() && b.well_formed(),
        }
    }

    /// Whether the expression holds no trace cell.
    pub open spec fn trace_free(self) -> bool
        decreases self,
    {
        match self {
            TraceExpr::Trace(_, _) => false,
            TraceExpr::Poly(_) => true,
            TraceExpr::Neg(a) => a.trace_free(),
            TraceExpr::Add(a, b) => a.trace_free() && b.trace_free(),
            TraceExpr::Mul(a, b) => a.trace_free() && b.trace_free(),
        }
    }

    /// The sparse polynomial that an expression without trace cells stands
    /// for.
    pub open spec fn reify(self) -> Terms
        decreases self,
    {
        match self {
            TraceExpr::Trace(_, _) => Seq::empty(),
            TraceExpr::Poly(p) => p.reify(),
            TraceExpr::Neg(a) => neg_terms(a.reify()),
            TraceExpr::Add(a, b) => add_terms(a.reify(), b.reify()),
            TraceExpr::Mul(a, b) => mul_terms(a.reify(), b.reify()),
        }
    }
}

/// The degree of a sum is the larger of the two degrees, the degree of a
/// product is their sum, and the degree of a power is the degree times the
/// exponent.
pub proof fn lemma_degree_algebra(a: PolyExpr, b: PolyExpr, n: nat)
    ensures
        PolyExpr::Add(Box::new(a), Box::new(b)).degree() == max_nat(a.degree(), b.degree()),
        PolyExpr::Mul(Box::new(a), Box::new(b)).degree() == a.degree() + b.degree(),
        PolyExpr::Pow(Box::new(a), n).degree() == n * a.degree(),
        PolyExpr::Neg(Box::new(a)).degree() == a.degree(),
{
}

/// The same holds of expressions with trace cells, whatever the length of
/// the trace.
pub proof fn lemma_trace_degree_algebra(a: TraceExpr, b: TraceExpr, trace_length: nat)
    ensures
        TraceExpr::Add(Box::new(a), Box::new(b)).degree(trace_length) == max_nat(
            a.degree(trace_length),
            b.degree(trace_length),
        ),
        TraceExpr::Mul(Box::new(a), Box::new(b)).degree(trace_length) == a.degree(trace_length)
            + b.degree(trace_length),
        TraceExpr::Neg(Box::new(a)).degree(trace_length) == a.degree(trace_length),
{
}

/// The value of an expression at `x` is the value at `x` of the sparse
/// polynomial that the expression stands for.
pub proof fn lemma_reify_value(e: PolyExpr, x: nat)
    ensures
        eval_terms(e.reify(), x) == e.value(x),
    decreases e,
{
    match e {
        PolyExpr::X => {
            lemma_eval_monomial(1, 1, x);
            lemma_mul_mod_one(x);
            lemma_reduced(x, x);
            lemma_mul_mod_one(x % modulus());
            lemma_small(x % modulus());
            assert(pow_mod(x, 1) == mul_mod(x, pow_mod(x, 0)));
        },
        PolyExpr::Constant(c) => {
            lemma_eval_monomial(c, 0, x);
            lemma_mul_mod_one(c);
        },
        PolyExpr::PeriodicColumn(p) => {},
        PolyExpr::Neg(a) => {
            lemma_reify_value(*a, x);
            lemma_eval_neg(a.reify(), x);
        },
        PolyExpr::Add(a, b) => {
            lemma_reify_value(*a, x);
            lemma_reify_value(*b, x);
            lemma_eval_add(a.reify(), b.reify(), x);
        },
        PolyExpr::Mul(a, b) => {
            lemma_reify_value(*a, x);
            lemma_reify_value(*b, x);
            lemma_eval_mul(a.reify(), b.reify(), x);
        },
        PolyExpr::Pow(a, n) => {
            lemma_reify_value(*a, x);
            lemma_eval_pow(a.reify(), n, x);
        },
    }
}

/// The sparse polynomial of an expression is in canonical form, and it has
/// at most the degree that the shape of the expression gives.
pub proof fn lemma_reify_canonical(e: PolyExpr)
    requires
        e.well_formed(),
    ensures
        canonical(e.reify()),
        degree_of(e.reify()) <= e.degree(),
    decreases e,
{
    match e {
        PolyExpr::X => {
            lemma_monomial_canonical(1, 1);
        },
        PolyExpr::Constant(c) => {
            lemma_monomial_canonical(c, 0);
        },
        PolyExpr::PeriodicColumn(p) => {},
        PolyExpr::Neg(a) => {
            lemma_reify_canonical(*a);
            lemma_degree_bounds(a.reify());
            lemma_scale_canonical(
                a.reify(),
                (modulus() - 1) as nat,
                0,
                0,
                degree_of(a.reify()),
            );
            lemma_degree_bounded(e.reify(), 0, degree_of(a.reify()));
        },
        PolyExpr::Add(a, b) => {
            lemma_reify_canonical(*a);
            lemma_reify_canonical(*b);
            let high = max_nat(degree_of(a.reify()), degree_of(b.reify()));
            lemma_degree_bounds(a.reify());
            lemma_degree_bounds(b.reify());
            lemma_bounded_widen(a.reify(), 0, degree_of(a.reify()), 0, high);
            lemma_bounded_widen(b.reify(), 0, degree_of(b.reify()), 0, high);
            lemma_add_canonical(a.reify(), b.reify(), 0, high);
            lemma_degree_bounded(e.reify(), 0, high);
        },
        PolyExpr::Mul(a, b) => {
            lemma_reify_canonical(*a);
            lemma_reify_canonical(*b);
            lemma_mul_canonical(a.reify(), b.reify());
        },
        PolyExpr::Pow(a, n) => {
            lemma_reify_canonical(*a);
            lemma_pow_canonical(a.reify(), n);
            let inner = degree_of(a.reify());
            let outer = a.degree();
            assert(n * inner <= n * outer) by (nonlinear_arith)
                requires
                    inner <= outer,
            ;
        },
    }
}

/// An expression without trace cells has the value of its sparse
/// polynomial, whatever the trace cells hold.
pub proof fn lemma_trace_free_value(e: TraceExpr, oracle: spec_fn(nat, int) -> nat, x: nat)
    requires
        e.trace_free(),
    ensures
        eval_terms(e.reify(), x) == e.value(oracle, x),
    decreases e,
{
    match e {
        TraceExpr::Trace(_, _) => {},
        TraceExpr::Poly(p) => {
            lemma_reify_value(p, x);
        },
        TraceExpr::Neg(a) => {
            lemma_trace_free_value(*a, oracle, x);
            lemma_eval_neg(a.reify(), x);
        },
        TraceExpr::Add(a, b) => {
            lemma_trace_free_value(*a, oracle, x);
            lemma_trace_free_value(*b, oracle, x);
            lemma_eval_add(a.reify(), b.reify(), x);
        },
        TraceExpr::Mul(a, b) => {
            lemma_trace_free_value(*a, oracle, x);
            lemma_trace_free_value(*b, oracle, x);
            lemma_eval_mul(a.reify(), b.reify(), x);
        },
    }
}

/// Whether `oracle` tells what the closure returns for each trace cell.
pub open spec fn answers<F: Fn(usize, isize) -> FieldElement>(
    trace_table: F,
    oracle: spec_fn(nat, int) -> nat,
) -> bool {
    forall|i: usize, j: isize, v: FieldElement| #[trigger]
        trace_table.ensures((i, j), v) ==> v@ == oracle(i as nat, j as int)
}

/// An expression in `X` alone.
#[derive(Debug)]
pub enum Other {
    X,
    Constant(FieldElement),
    PeriodicColumn(SparsePolynomial),
    Neg(Box<Other>),
    Add(Box<Other>, Box<Other>),
    Mul(Box<Other>, Box<Other>),
    Pow(Box<Other>, usize),
}

/// An expression in `X` alone, by its other name.
pub type PolynomialExpression = Other;

/// A leaf of an expression: a trace cell, by column and row offset, or an
/// expression in `X` alone.
#[derive(Debug)]
pub enum Term {
    Trace(usize, isize),
    Other(Other),
}

/// A node of an expression above its leaves.
#[derive(Debug)]
pub enum Operation {
    Neg(Box<Expression>),
    Add(Box<Expression>, Box<Expression>),
    Mul(Box<Expression>, Box<Expression>),
}

/// An expression in `X` and in trace cells.
#[derive(Debug)]
pub enum Expression {
    Term(Term),
    Operation(Operation),
}

/// An expression in `X` and in trace cells, by its other name.
pub type TraceExpression = Expression;

impl Other {
    /// The model of the expression.
    pub open spec fn model(self) -> PolyExpr
        decreases self,
    {
        match self {
            Other::X => PolyExpr::X,
            Other::Constant(c) => PolyExpr::Constant(c@),
            Other::PeriodicColumn(p) => PolyExpr::PeriodicColumn(p@),
            Other::Neg(a) => PolyExpr::Neg(Box::new(a.model())),
            Other::Add(a, b) => PolyExpr::Add(Box::new(a.model()), Box::new(b.model())),
            Other::Mul(a, b) => PolyExpr::Mul(Box::new(a.model()), Box::new(b.model())),
            Other::Pow(a, n) => PolyExpr::Pow(Box::new(a.model()), n as nat),
        }
    }
}

impl View for Other {
    type V = PolyExpr;

    open spec fn view(&self) -> PolyExpr {
        self.model()
    }
}

impl View for Term {
    type V = TraceExpr;

    open spec fn view(&self) -> TraceExpr {
        match self {
            Term::Trace(i, j) => TraceExpr::Trace(*i as nat, *j as int),
            Term::Other(o) => TraceExpr::Poly(o@),
        }
    }
}

impl Expression {
    /// The model of the expression.
    pub open spec fn model(self) -> TraceExpr
        decreases self,
    {
        match self {
            Expression::Term(t) => t@,
            Expression::Operation(Operation::Neg(a)) => TraceExpr::Neg(Box::new(a.model())),
            Expression::Operation(Operation::Add(a, b)) => TraceExpr::Add(
                Box::new(a.model()),
                Box::new(b.model()),
            ),
            Expression::Operation(Operation::Mul(a, b)) => TraceExpr::Mul(
                Box::new(a.model()),
                Box::new(b.model()),
            ),
        }
    }
}

impl View for Expression {
    type V = TraceExpr;

    open spec fn view(&self) -> TraceExpr {
        self.model()
    }
}

impl View for Operation {
    type V = TraceExpr;

    open spec fn view(&self) -> TraceExpr {
        Expression::Operation(*self)@
    }
}

impl Other {
    /// The expression `c`, for an integer `c`.
    pub fn from_i64(value: i64) -> (r: Other)
        ensures
            r@ == PolyExpr::Constant(crate::modular::int_mod(value as int)),
    {
        Other::Constant(FieldElement::from_i64(value))
    }

    /// The negation. It has the degree of the expression and, at each
    /// point, the negated value.
    pub fn neg(self) -> (r: Other)
        ensures
            r@ == PolyExpr::Neg(Box::new(self@)),
            r@.degree() == self@.degree(),
            forall|x: nat| #[trigger] r@.value(x) == neg_mod(self@.value(x)),
    {
        Other::Neg(Box::new(self))
    }

    /// The sum. Its degree is the larger of the two degrees, its value at
    /// each point the sum of the values.
    pub fn add(self, other: Other) -> (r: Other)
        ensures
            r@ == PolyExpr::Add(Box::new(self@), Box::new(other@)),
            r@.degree() == max_nat(self@.degree(), other@.degree()),
            forall|x: nat| #[trigger] r@.value(x) == add_mod(self@.value(x), other@.value(x)),
    {
        Other::Add(Box::new(self), Box::new(other))
    }

    /// The difference: the sum with the negation.
    pub fn sub(self, other: Other) -> (r: Other)
        ensures
            r@ == PolyExpr::Add(Box::new(self@), Box::new(PolyExpr::Neg(Box::new(other@)))),
            r@.degree() == max_nat(self@.degree(), other@.degree()),
            forall|x: nat| #[trigger] r@.value(x) == sub_mod(self@.value(x), other@.value(x)),
    {
        self.add(other.neg())
    }

    /// The product. Its degree is the sum of the two degrees, its value at
    /// each point the product of the values.
    pub fn mul(self, other: Other) -> (r: Other)
        ensures
            r@ == PolyExpr::Mul(Box::new(self@), Box::new(other@)),
            r@.degree() == self@.degree() + other@.degree(),
            forall|x: nat| #[trigger] r@.value(x) == mul_mod(self@.value(x), other@.value(x)),
    {
        Other::Mul(Box::new(self), Box::new(other))
    }

    /// The power. Its degree is the degree times the exponent, its value
    /// at each point the power of the value.
    pub fn pow(self, exponent: usize) -> (r: Other)
        ensures
            r@ == PolyExpr::Pow(Box::new(self@), exponent as nat),
            r@.degree() == exponent * self@.degree(),
            forall|x: nat| #[trigger] r@.value(x) == pow_mod(self@.value(x), exponent as nat),
    {
        Other::Pow(Box::new(self), exponent)
    }

    /// A copy of the expression. Its periodic columns are in canonical
    /// form, as those of every expression are.
    pub fn duplicate(&self) -> (r: Other)
        ensures
            r@ == self@,
            self@.well_formed(),
        decreases self,
    {
        match self {
            Other::X => Other::X,
            Other::Constant(c) => Other::Constant(*c),
            Other::PeriodicColumn(p) => {
                proof {
                    use_type_invariant(p);
                }
                Other::PeriodicColumn(p.duplicate())
            },
            Other::Neg(a) => Other::Neg(Box::new(a.duplicate())),
            Other::Add(a, b) => Other::Add(Box::new(a.duplicate()), Box::new(b.duplicate())),
            Other::Mul(a, b) => Other::Mul(Box::new(a.duplicate()), Box::new(b.duplicate())),
            Other::Pow(a, n) => Other::Pow(Box::new(a.duplicate()), *n),
        }
    }

    /// Whether two expressions have the same shape and the same leaves.
    pub fn equals(&self, other: &Other) -> (r: bool)
        ensures
            r == (self@ == other@),
        decreases self,
    {
        match (self, other) {
            (Other::X, Other::X) => true,
            (Other::Constant(c), Other::Constant(d)) => c.equals(d),
            (Other::PeriodicColumn(p), Other::PeriodicColumn(q)) => p.equals(q),
            (Other::Neg(a), Other::Neg(c)) => a.equals(c),
            (Other::Add(a, b), Other::Add(c, d)) => a.equals(c) && b.equals(d),
            (Other::Mul(a, b), Other::Mul(c, d)) => a.equals(c) && b.equals(d),
            (Other::Pow(a, n), Other::Pow(c, m)) => *n == *m && a.equals(c),
            _ => false,
        }
    }

    /// The degree of the expression.
    pub fn degree(&self) -> (d: usize)
        requires
            self@.degree() <= usize::MAX,
        ensures
            d == self@.degree(),
        decreases self,
    {
        match self {
            Other::X => 1,
            Other::Constant(_) => 0,
            Other::PeriodicColumn(p) => p.degree(),
            Other::Neg(a) => a.degree(),
            Other::Add(a, b) => {
                let da = a.degree();
                let db = b.degree();
                if da < db {
                    db
                } else {
                    da
                }
            },
            Other::Mul(a, b) => a.degree() + b.degree(),
            Other::Pow(a, n) => {
                if *n == 0 {
                    assert(0 * a@.degree() == 0);
                    0
                } else {
                    assert(a@.degree() <= *n * a@.degree()) by (nonlinear_arith)
                        requires
                            *n >= 1,
                    ;
                    *n * a.degree()
                }
            },
        }
    }

    /// Whether this expression comes before the other: the order is that
    /// of the polynomials that the two stand for.
    pub fn less_than(&self, other: &Other) -> (r: bool)
        requires
            self@.degree() <= usize::MAX,
            other@.degree() <= usize::MAX,
        ensures
            r == poly_lt(self@.reify(), other@.reify()),
    {
        self.to_sparse().less_than(&other.to_sparse())
    }

    /// Whether both expressions stand for the same polynomial: neither
    /// comes before the other.
    pub fn same_polynomial(&self, other: &Other) -> (r: bool)
        requires
            self@.degree() <= usize::MAX,
            other@.degree() <= usize::MAX,
        ensures
            r == (self@.reify() == other@.reify()),
            r == (!poly_lt(self@.reify(), other@.reify()) && !poly_lt(
                other@.reify(),
                self@.reify(),
            )),
    {
        proof {
            lemma_poly_lt_order(self@.reify(), other@.reify(), self@.reify());
        }
        self.to_sparse().equals(&other.to_sparse())
    }

    /// The degree of the expression, where it is within the machine's
    /// range.
    pub fn checked_degree(&self) -> (d: Option<usize>)
        ensures
            match d {
                Some(d) => d == self@.degree(),
                None => self@.degree() > usize::MAX,
            },
        decreases self,
    {
        match self {
            Other::X => Some(1),
            Other::Constant(_) => Some(0),
            Other::PeriodicColumn(p) => Some(p.degree()),
            Other::Neg(a) => a.checked_degree(),
            Other::Add(a, b) => match (a.checked_degree(), b.checked_degree()) {
                (Some(da), Some(db)) => Some(
                    if da < db {
                        db
                    } else {
                        da
                    },
                ),
                _ => None,
            },
            Other::Mul(a, b) => match (a.checked_degree(), b.checked_degree()) {
                (Some(da), Some(db)) => da.checked_add(db),
                _ => None,
            },
            Other::Pow(a, n) => {
                if *n == 0 {
                    assert(0 * a@.degree() == 0);
                    Some(0)
                } else {
                    assert(a@.degree() <= *n * a@.degree()) by (nonlinear_arith)
                        requires
                            *n >= 1,
                    ;
                    match a.checked_degree() {
                        Some(da) => n.checked_mul(da),
                        None => None,
                    }
                }
            },
        }
    }

    /// The value of the expression at `x`.
    pub fn eval(&self, x: &FieldElement) -> (r: FieldElement)
        ensures
            r@ == self@.value(x@),
        decreases self,
    {
        match self {
            Other::X => {
                proof {
                    use_type_invariant(x);
                    lemma_small(x@);
                }
                *x
            },
            Other::Constant(c) => {
                proof {
                    use_type_invariant(c);
                    lemma_small(c@);
                }
                *c
            },
            Other::PeriodicColumn(p) => p.evaluate(x),
            Other::Neg(a) => a.eval(x).neg(),
            Other::Add(a, b) => a.eval(x).add(&b.eval(x)),
            Other::Mul(a, b) => a.eval(x).mul(&b.eval(x)),
            Other::Pow(a, n) => a.eval(x).pow(*n),
        }
    }

    /// The sparse polynomial that the expression stands for.
    pub fn to_sparse(&self) -> (r: SparsePolynomial)
        requires
            self@.degree() <= usize::MAX,
        ensures
            r@ == self@.reify(),
            canonical(r@),
            degree_of(r@) <= self@.degree(),
        decreases self,
    {
        let r = match self {
            Other::X => {
                proof {
                    lemma_monomial_canonical(1, 1);
                }
                SparsePolynomial::x()
            },
            Other::Constant(c) => {
                proof {
                    lemma_monomial_canonical(c@, 0);
                }
                SparsePolynomial::constant(*c)
            },
            Other::PeriodicColumn(p) => p.duplicate(),
            Other::Neg(a) => {
                let ra = a.to_sparse();
                proof {
                    lemma_degree_bounds(ra@);
                    lemma_scale_canonical(ra@, (modulus() - 1) as nat, 0, 0, degree_of(ra@));
                    lemma_degree_bounded(neg_terms(ra@), 0, degree_of(ra@));
                }
                ra.neg()
            },
            Other::Add(a, b) => {
                let ra = a.to_sparse();
                let rb = b.to_sparse();
                proof {
                    let high = self@.degree();
                    lemma_degree_bounds(ra@);
                    lemma_degree_bounds(rb@);
                    lemma_bounded_widen(ra@, 0, degree_of(ra@), 0, high);
                    lemma_bounded_widen(rb@, 0, degree_of(rb@), 0, high);
                    lemma_add_canonical(ra@, rb@, 0, high);
                    lemma_degree_bounded(add_terms(ra@, rb@), 0, high);
                }
                ra.add(&rb)
            },
            Other::Mul(a, b) => {
                let ra = a.to_sparse();
                let rb = b.to_sparse();
                proof {
                    lemma_mul_canonical(ra@, rb@);
                }
                ra.mul(&rb)
            },
            Other::Pow(a, n) => {
                if *n == 0 {
                    proof {
                        lemma_monomial_canonical(1, 0);
                    }
                    SparsePolynomial::constant(FieldElement::one())
                } else {
                    assert(a@.degree() <= *n * a@.degree()) by (nonlinear_arith)
                        requires
                            *n >= 1,
                    ;
                    let ra = a.to_sparse();
                    proof {
                        lemma_pow_canonical(ra@, *n as nat);
                        assert(*n * degree_of(ra@) <= *n * a@.degree()) by (nonlinear_arith)
                            requires
                                degree_of(ra@) <= a@.degree(),
                        ;
                    }
                    ra.pow(*n)
                }
            },
        };
        proof {
            use_type_invariant(&r);
        }
        r
    }
}

impl Term {
    /// A copy of the leaf. Its periodic columns are in canonical form.
    pub fn duplicate(&self) -> (r: Term)
        ensures
            r@ == self@,
            self@.well_formed(),
    {
        match self {
            Term::Trace(i, j) => Term::Trace(*i, *j),
            Term::Other(o) => Term::Other(o.duplicate()),
        }
    }

    /// The degree of the leaf, where the trace has `trace_length` rows.
    pub fn degree(&self, trace_length: usize) -> (d: usize)
        requires
            trace_length >= 1,
            self@.degree(trace_length as nat) <= usize::MAX,
        ensures
            d == self@.degree(trace_length as nat),
    {
        match self {
            Term::Trace(_, _) => trace_length - 1,
            Term::Other(other) => other.degree(),
        }
    }

    /// The leaf raised to a power. A trace cell can only be squared.
    pub fn pow(&self, exponent: usize) -> (r: Result<Expression, Error>)
        ensures
            match self@ {
                TraceExpr::Trace(i, j) => if exponent == 2 {
                    r.is_ok() && r.unwrap()@ == TraceExpr::Mul(
                        Box::new(TraceExpr::Trace(i, j)),
                        Box::new(TraceExpr::Trace(i, j)),
                    )
                } else {
                    r == Err::<Expression, Error>(Error::UnsupportedOperation)
                },
                TraceExpr::Poly(p) => r.is_ok() && r.unwrap()@ == TraceExpr::Poly(
                    PolyExpr::Pow(Box::new(p), exponent as nat),
                ),
                _ => false,
            },
    {
        match self {
            Term::Trace(i, j) => {
                if exponent == 2 {
                    Ok(
                        Expression::Term(Term::Trace(*i, *j)).mul(
                            Expression::Term(Term::Trace(*i, *j)),
                        ),
                    )
                } else {
                    Err(Error::UnsupportedOperation)
                }
            },
            Term::Other(other) => Ok(Expression::from_other(other.duplicate().pow(exponent))),
        }
    }

    /// The value of the leaf at `x`, where `trace_table` gives what each
    /// trace cell holds. It is asked for the cell of the leaf only; a leaf
    /// in `X` alone has the value of its polynomial.
    pub fn eval<F: Fn(usize, isize) -> FieldElement>(
        &self,
        trace_table: &F,
        x: &FieldElement,
    ) -> (r: FieldElement)
        requires
            forall|i: usize, j: isize|
                self@.reads(i as nat, j as int) ==> #[trigger] trace_table.requires((i, j)),
        ensures
            forall|oracle: spec_fn(nat, int) -> nat| #[trigger]
                answers(*trace_table, oracle) ==> r@ == self@.value(oracle, x@),
            self@.trace_free() ==> r@ == eval_terms(self@.reify(), x@),
    {
        match self {
            Term::Trace(i, j) => {
                assert(self@.reads(*i as nat, *j as int));
                let v = trace_table(*i, *j);
                proof {
                    use_type_invariant(&v);
                    lemma_small(v@);
                }
                v
            },
            Term::Other(other) => {
                proof {
                    lemma_reify_value(other@, x@);
                }
                other.eval(x)
            },
        }
    }
}

impl Expression {
    /// The cell of a column at a row offset. Its degree is one less than
    /// the length of the trace.
    pub fn trace(column: usize, offset: isize) -> (r: Expression)
        ensures
            r@ == TraceExpr::Trace(column as nat, offset as int),
            forall|length: nat| length >= 1 ==> #[trigger] r@.degree(length) == length - 1,
    {
        Expression::Term(Term::Trace(column, offset))
    }

    /// An expression in `X` alone, as an expression.
    pub fn from_other(other: Other) -> (r: Expression)
        ensures
            r@ == TraceExpr::Poly(other@),
            forall|length: nat| #[trigger] r@.degree(length) == other@.degree(),
            forall|oracle: spec_fn(nat, int) -> nat, x: nat| #[trigger]
                r@.value(oracle, x) == other@.value(x),
    {
        Expression::Term(Term::Other(other))
    }

    /// The constant `c`, for an integer `c`.
    pub fn from_i64(value: i64) -> (r: Expression)
        ensures
            r@ == TraceExpr::Poly(PolyExpr::Constant(crate::modular::int_mod(value as int))),
    {
        Expression::Term(Term::Other(Other::from_i64(value)))
    }

    /// The constant `c`, for a field element `c`.
    pub fn from_field(value: &FieldElement) -> (r: Expression)
        ensures
            r@ == TraceExpr::Poly(PolyExpr::Constant(value@)),
    {
        Expression::Term(Term::Other(Other::Constant(*value)))
    }

    /// A sparse polynomial, as a periodic column.
    pub fn from_sparse(value: SparsePolynomial) -> (r: Expression)
        ensures
            r@ == TraceExpr::Poly(PolyExpr::PeriodicColumn(value@)),
    {
        Expression::Term(Term::Other(Other::PeriodicColumn(value)))
    }

    /// The negation. It has the degree of the expression and the negated
    /// value.
    pub fn neg(self) -> (r: Expression)
        ensures
            r@ == TraceExpr::Neg(Box::new(self@)),
            forall|length: nat| #[trigger] r@.degree(length) == self@.degree(length),
            forall|oracle: spec_fn(nat, int) -> nat, x: nat| #[trigger]
                r@.value(oracle, x) == neg_mod(self@.value(oracle, x)),
    {
        Expression::Operation(Operation::Neg(Box::new(self)))
    }

    /// The sum. Its degree is the larger of the two degrees, its value the
    /// sum of the values.
    pub fn add(self, other: Expression) -> (r: Expression)
        ensures
            r@ == TraceExpr::Add(Box::new(self@), Box::new(other@)),
            forall|length: nat| #[trigger]
                r@.degree(length) == max_nat(self@.degree(length), other@.degree(length)),
            forall|oracle: spec_fn(nat, int) -> nat, x: nat| #[trigger]
                r@.value(oracle, x) == add_mod(self@.value(oracle, x), other@.value(oracle, x)),
    {
        Expression::Operation(Operation::Add(Box::new(self), Box::new(other)))
    }

    /// Replaces the expression by its sum with another.
    pub fn add_assign(&mut self, other: Expression)
        ensures
            final(self)@ == TraceExpr::Add(Box::new(old(self)@), Box::new(other@)),
    {
        let left = self.duplicate();
        *self = Expression::Operation(Operation::Add(Box::new(left), Box::new(other)));
    }

    /// The difference: the sum with the negation.
    pub fn sub(self, other: Expression) -> (r: Expression)
        ensures
            r@ == TraceExpr::Add(Box::new(self@), Box::new(TraceExpr::Neg(Box::new(other@)))),
            forall|length: nat| #[trigger]
                r@.degree(length) == max_nat(self@.degree(length), other@.degree(length)),
            forall|oracle: spec_fn(nat, int) -> nat, x: nat| #[trigger]
                r@.value(oracle, x) == sub_mod(self@.value(oracle, x), other@.value(oracle, x)),
    {
        self.add(other.neg())
    }

    /// The product. Its degree is the sum of the two degrees, its value
    /// the product of the values.
    pub fn mul(self, other: Expression) -> (r: Expression)
        ensures
            r@ == TraceExpr::Mul(Box::new(self@), Box::new(other@)),
            forall|length: nat| #[trigger]
                r@.degree(length) == self@.degree(length) + other@.degree(length),
            forall|oracle: spec_fn(nat, int) -> nat, x: nat| #[trigger]
                r@.value(oracle, x) == mul_mod(self@.value(oracle, x), other@.value(oracle, x)),
    {
        Expression::Operation(Operation::Mul(Box::new(self), Box::new(other)))
    }

    /// A copy of the expression. Its periodic columns are in canonical
    /// form, as those of every expression are.
    pub fn duplicate(&self) -> (r: Expression)
        ensures
            r@ == self@,
            self@.well_formed(),
        decreases self,
    {
        match self {
            Expression::Term(t) => Expression::Term(t.duplicate()),
            Expression::Operation(Operation::Neg(a)) => Expression::Operation(
                Operation::Neg(Box::new(a.duplicate())),
            ),
            Expression::Operation(Operation::Add(a, b)) => Expression::Operation(
                Operation::Add(Box::new(a.duplicate()), Box::new(b.duplicate())),
            ),
            Expression::Operation(Operation::Mul(a, b)) => Expression::Operation(
                Operation::Mul(Box::new(a.duplicate()), Box::new(b.duplicate())),
            ),
        }
    }

    /// Whether two expressions have the same shape and the same leaves.
    pub fn equals(&self, other: &Expression) -> (r: bool)
        ensures
            r == (self@ == other@),
        decreases self,
    {
        match (self, other) {
            (Expression::Term(Term::Trace(i, j)), Expression::Term(Term::Trace(k, l))) => *i
                == *k && *j == *l,
            (Expression::Term(Term::Other(a)), Expression::Term(Term::Other(b))) => a.equals(b),
            (
                Expression::Operation(Operation::Neg(a)),
                Expression::Operation(Operation::Neg(c)),
            ) => a.equals(c),
            (
                Expression::Operation(Operation::Add(a, b)),
                Expression::Operation(Operation::Add(c, d)),
            ) => a.equals(c) && b.equals(d),
            (
                Expression::Operation(Operation::Mul(a, b)),
                Expression::Operation(Operation::Mul(c, d)),
            ) => a.equals(c) && b.equals(d),
            _ => false,
        }
    }

    /// The degree of the expression, where the trace has `trace_length` rows.
    pub fn degree(&self, trace_length: usize) -> (d: usize)
        requires
            trace_length >= 1,
            self@.degree(trace_length as nat) <= usize::MAX,
        ensures
            d == self@.degree(trace_length as nat),
        decreases self,
    {
        match self {
            Expression::Term(term) => term.degree(trace_length),
            Expression::Operation(Operation::Add(a, b)) => {
                let da = a.degree(trace_length);
                let db = b.degree(trace_length);
                if da < db {
                    db
                } else {
                    da
                }
            },
            Expression::Operation(Operation::Mul(a, b)) => a.degree(trace_length) + b.degree(
                trace_length,
            ),
            Expression::Operation(Operation::Neg(a)) => a.degree(trace_length),
        }
    }

    /// The degree of the expression, where the trace has `trace_length`
    /// rows and the degree is within the machine's range.
    pub fn checked_degree(&self, trace_length: usize) -> (d: Option<usize>)
        requires
            trace_length >= 1,
        ensures
            match d {
                Some(d) => d == self@.degree(trace_length as nat),
                None => self@.degree(trace_length as nat) > usize::MAX,
            },
        decreases self,
    {
        match self {
            Expression::Term(Term::Trace(_, _)) => Some(trace_length - 1),
            Expression::Term(Term::Other(other)) => other.checked_degree(),
            Expression::Operation(Operation::Neg(a)) => a.checked_degree(trace_length),
            Expression::Operation(Operation::Add(a, b)) => match (
                a.checked_degree(trace_length),
                b.checked_degree(trace_length),
            ) {
                (Some(da), Some(db)) => Some(
                    if da < db {
                        db
                    } else {
                        da
                    },
                ),
                _ => None,
            },
            Expression::Operation(Operation::Mul(a, b)) => match (
                a.checked_degree(trace_length),
                b.checked_degree(trace_length),
            ) {
                (Some(da), Some(db)) => da.checked_add(db),
                _ => None,
            },
        }
    }

    /// The value of the expression at `x`, where `trace_table` gives what
    /// each trace cell holds. It is asked for the cells that occur in the
    /// expression and for no other; an expression without trace cells has
    /// the value of its polynomial.
    pub fn eval<F: Fn(usize, isize) -> FieldElement>(
        &self,
        trace_table: &F,
        x: &FieldElement,
    ) -> (r: FieldElement)
        requires
            forall|i: usize, j: isize|
                self@.reads(i as nat, j as int) ==> #[trigger] trace_table.requires((i, j)),
        ensures
            forall|oracle: spec_fn(nat, int) -> nat| #[trigger]
                answers(*trace_table, oracle) ==> r@ == self@.value(oracle, x@),
            self@.trace_free() ==> r@ == eval_terms(self@.reify(), x@),
        decreases self,
    {
        match self {
            Expression::Term(term) => term.eval(trace_table, x),
            Expression::Operation(Operation::Add(a, b)) => {
                proof {
                    lemma_eval_add(a@.reify(), b@.reify(), x@);
                }
                a.eval(trace_table, x).add(&b.eval(trace_table, x))
            },
            Expression::Operation(Operation::Mul(a, b)) => {
                proof {
                    lemma_eval_mul(a@.reify(), b@.reify(), x@);
                }
                a.eval(trace_table, x).mul(&b.eval(trace_table, x))
            },
            Expression::Operation(Operation::Neg(a)) => {
                proof {
                    lemma_eval_neg(a@.reify(), x@);
                }
                a.eval(trace_table, x).neg()
            },
        }
    }

    /// The sparse polynomial that the expression stands for; an expression
    /// that holds a trace cell stands for none.
    pub fn to_sparse(&self) -> (r: Result<SparsePolynomial, Error>)
        requires
            self@.degree(1) <= usize::MAX,
        ensures
            self@.trace_free() ==> r.is_ok() && r.unwrap()@ == self@.reify() && degree_of(
                r.unwrap()@,
            ) <= self@.degree(1),
            !self@.trace_free() ==> r == Err::<SparsePolynomial, Error>(
                Error::UnsupportedOperation,
            ),
        decreases self,
    {
        match self {
            Expression::Term(Term::Trace(_, _)) => Err(Error::UnsupportedOperation),
            Expression::Term(Term::Other(other)) => Ok(other.to_sparse()),
            Expression::Operation(Operation::Neg(a)) => {
                match a.to_sparse() {
                    Ok(ra) => {
                        proof {
                            use_type_invariant(&ra);
                            lemma_degree_bounds(ra@);
                            lemma_scale_canonical(
                                ra@,
                                (modulus() - 1) as nat,
                                0,
                                0,
                                degree_of(ra@),
                            );
                            lemma_degree_bounded(neg_terms(ra@), 0, degree_of(ra@));
                        }
                        Ok(ra.neg())
                    },
                    Err(e) => Err(e),
                }
            },
            Expression::Operation(Operation::Add(a, b)) => {
                match a.to_sparse() {
                    Ok(ra) => match b.to_sparse() {
                        Ok(rb) => {
                            proof {
                                let high = self@.degree(1);
                                use_type_invariant(&ra);
                                use_type_invariant(&rb);
                                lemma_degree_bounds(ra@);
                                lemma_degree_bounds(rb@);
                                lemma_bounded_widen(ra@, 0, degree_of(ra@), 0, high);
                                lemma_bounded_widen(rb@, 0, degree_of(rb@), 0, high);
                                lemma_add_canonical(ra@, rb@, 0, high);
                                lemma_degree_bounded(add_terms(ra@, rb@), 0, high);
                            }
                            Ok(ra.add(&rb))
                        },
                        Err(e) => Err(e),
                    },
                    Err(e) => Err(e),
                }
            },
            Expression::Operation(Operation::Mul(a, b)) => {
                match a.to_sparse() {
                    Ok(ra) => match b.to_sparse() {
                        Ok(rb) => {
                            proof {
                                use_type_invariant(&ra);
                                use_type_invariant(&rb);
                                lemma_mul_canonical(ra@, rb@);
                            }
                            Ok(ra.mul(&rb))
                        },
                        Err(e) => Err(e),
                    },
                    Err(e) => Err(e),
                }
            },
        }
    }
}

} // verus!
