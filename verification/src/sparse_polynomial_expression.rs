//! Expressions in `X` alone with the constructors `X`, `Constant` and
//! `PeriodicColumn`.
//!
//! The expression is held as it was built: its degree is that of its
//! shape. It is made a sparse polynomial only where two expressions are
//! compared.

use crate::expression::{max_nat, Other, PolyExpr};
use crate::field::FieldElement;
use crate::modular::int_mod;
use crate::polynomial::sparse::{poly_lt, SparsePolynomial};
use vstd::prelude::*;

verus! {

/// An expression in `X` alone.
#[derive(Debug)]
pub struct SparsePolynomialExpression(pub Other);

impl View for SparsePolynomialExpression {
    type V = PolyExpr;

    open spec fn view(&self) -> PolyExpr {
        self.0@
    }
}

/// The indeterminate.
#[allow(non_snake_case)]
pub fn X() -> (r: SparsePolynomialExpression)
    ensures
        r@ == PolyExpr::X,
        r@.degree() == 1,
{
    SparsePolynomialExpression(Other::X)
}

/// The constant that stands for an integer.
#[allow(non_snake_case)]
pub fn Constant(x: isize) -> (r: SparsePolynomialExpression)
    ensures
        r@ == PolyExpr::Constant(int_mod(x as int)),
        r@.degree() == 0,
{
    SparsePolynomialExpression(Other::from_i64(x as i64))
}

/// A periodic column, given by its polynomial.
#[allow(non_snake_case)]
pub fn PeriodicColumn(p: SparsePolynomial) -> (r: SparsePolynomialExpression)
    ensures
        r@ == PolyExpr::PeriodicColumn(p@),
{
    SparsePolynomialExpression(Other::PeriodicColumn(p))
}

impl SparsePolynomialExpression {
    /// The expression raised to a power. Its degree is the degree times the
    /// exponent, and it stands for the power of the polynomial.
    pub fn pow(&self, n: usize) -> (r: SparsePolynomialExpression)
        ensures
            r@ == PolyExpr::Pow(Box::new(self@), n as nat),
            r@.degree() == n * self@.degree(),
            r@.reify() == crate::polynomial::sparse::pow_terms(self@.reify(), n as nat),
    {
        SparsePolynomialExpression(self.0.duplicate().pow(n))
    }

    /// The degree of the expression, by its shape.
    pub fn degree(&self) -> (d: usize)
        requires
            self@.degree() <= usize::MAX,
        ensures
            d == self@.degree(),
    {
        self.0.degree()
    }

    /// The degree of the expression, where it is within the machine's range.
    pub fn checked_degree(&self) -> (d: Option<usize>)
        ensures
            match d {
                Some(d) => d == self@.degree(),
                None => self@.degree() > usize::MAX,
            },
    {
        self.0.checked_degree()
    }

    /// The difference of two expressions: the sum with the negation.
    pub fn sub(&self, other: &SparsePolynomialExpression) -> (r: SparsePolynomialExpression)
        ensures
            r@ == PolyExpr::Add(Box::new(self@), Box::new(PolyExpr::Neg(Box::new(other@)))),
            r@.degree() == max_nat(self@.degree(), other@.degree()),
    {
        SparsePolynomialExpression(self.0.duplicate().sub(other.0.duplicate()))
    }

    /// The expression less a field element.
    pub fn sub_field(&self, other: FieldElement) -> (r: SparsePolynomialExpression)
        ensures
            r@ == PolyExpr::Add(
                Box::new(self@),
                Box::new(PolyExpr::Neg(Box::new(PolyExpr::Constant(other@)))),
            ),
            r@.degree() == self@.degree(),
    {
        SparsePolynomialExpression(self.0.duplicate().sub(Other::Constant(other)))
    }

    /// The expression less an integer.
    pub fn sub_integer(&self, other: isize) -> (r: SparsePolynomialExpression)
        ensures
            r@ == PolyExpr::Add(
                Box::new(self@),
                Box::new(PolyExpr::Neg(Box::new(PolyExpr::Constant(int_mod(other as int))))),
            ),
            r@.degree() == self@.degree(),
    {
        self.sub(&Constant(other))
    }

    /// The sparse polynomial that the expression stands for.
    pub fn to_sparse(&self) -> (r: SparsePolynomial)
        requires
            self@.degree() <= usize::MAX,
        ensures
            r@ == self@.reify(),
    {
        self.0.to_sparse()
    }

    /// Whether this expression comes before the other: the order is that of
    /// the polynomials that the two stand for.
    pub fn less_than(&self, other: &SparsePolynomialExpression) -> (r: bool)
        requires
            self@.degree() <= usize::MAX,
            other@.degree() <= usize::MAX,
        ensures
            r == poly_lt(self@.reify(), other@.reify()),
    {
        self.0.less_than(&other.0)
    }

    /// Whether both expressions stand for the same polynomial: neither comes
    /// before the other.
    pub fn equals(&self, other: &SparsePolynomialExpression) -> (r: bool)
        requires
            self@.degree() <= usize::MAX,
            other@.degree() <= usize::MAX,
        ensures
            r == (self@.reify() == other@.reify()),
            r == (!poly_lt(self@.reify(), other@.reify()) && !poly_lt(
                other@.reify(),
                self@.reify(),
            )),
    {
        self.0.same_polynomial(&other.0)
    }
}

} // verus!
