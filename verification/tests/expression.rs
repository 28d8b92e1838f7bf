use openstark::domain::{mul_assign, SPARSE_THRESHOLD};
use openstark::error::Error;
use openstark::expression::{Expression, Other, Term};
use openstark::field::FieldElement;
use openstark::fraction::Fraction;
use openstark::polynomial::dense::DensePolynomial;
use openstark::polynomial::sparse::SparsePolynomial;
use openstark::sparse_polynomial_expression::{Constant, PeriodicColumn, X};
use openstark::trace_multinomial::TraceMultinomial;

fn f(n: u64) -> FieldElement {
    FieldElement::from_u64(n)
}

fn sparse(pairs: &[(u64, usize)]) -> SparsePolynomial {
    let pairs: Vec<(FieldElement, usize)> = pairs.iter().map(|&(c, e)| (f(c), e)).collect();
    SparsePolynomial::new(&pairs)
}

fn dense(coefficients: &[u64]) -> DensePolynomial {
    let coefficients: Vec<FieldElement> = coefficients.iter().map(|&c| f(c)).collect();
    DensePolynomial::new(&coefficients)
}

fn coefficients(p: &DensePolynomial) -> Vec<FieldElement> {
    (0..p.len()).map(|k| p.coefficient(k)).collect()
}

fn terms(p: &SparsePolynomial) -> Vec<(FieldElement, usize)> {
    (0..p.len()).map(|k| p.term(k)).collect()
}

fn constant(n: u64) -> Other {
    Other::Constant(f(n))
}

fn trace(column: usize, offset: isize) -> Expression {
    Expression::trace(column, offset)
}

fn keys(m: &TraceMultinomial) -> Vec<Vec<(usize, isize)>> {
    (0..m.len()).map(|k| m.monomial(k).indices().clone()).collect()
}

/// The cell of column `i` at offset `j` holds `10 i + j + 3`.
fn cell_value(i: usize, j: isize) -> FieldElement {
    FieldElement::from_i64(10 * (i as i64) + (j as i64) + 3)
}

/// The cell of column `i` at offset `j` is the polynomial `(i + 1) X + j + 2`.
fn cell_polynomial(i: usize, j: isize) -> DensePolynomial {
    DensePolynomial::new(&[FieldElement::from_i64(j as i64 + 2), f(i as u64 + 1)])
}

#[test]
fn degree_follows_the_shape() {
    let a = Other::X.mul(Other::X).add(constant(5));
    let b = Other::PeriodicColumn(sparse(&[(1, 7), (2, 0)]));
    assert_eq!(a.degree(), 2);
    assert_eq!(b.degree(), 7);
    assert_eq!(a.duplicate().add(b.duplicate()).degree(), 7);
    assert_eq!(a.duplicate().mul(b.duplicate()).degree(), 9);
    assert_eq!(a.duplicate().pow(5).degree(), 10);
    assert_eq!(b.duplicate().pow(0).degree(), 0);
    assert_eq!(a.duplicate().neg().degree(), 2);
    assert_eq!(constant(9).degree(), 0);
    assert_eq!(Other::X.degree(), 1);
    // no cancellation is looked for
    assert_eq!(Other::X.sub(Other::X).degree(), 1);
}

#[test]
fn trace_degree_counts_rows() {
    let cell = trace(0, 0);
    assert_eq!(cell.degree(4), 3);
    assert_eq!(cell.degree(1), 0);
    let product = trace(0, 0).mul(trace(1, -1));
    assert_eq!(product.degree(8), 14);
    let sum = trace(0, 0).add(Expression::from_other(Other::X.pow(20)));
    assert_eq!(sum.degree(8), 20);
    assert_eq!(sum.degree(32), 31);
    assert_eq!(trace(2, 5).neg().degree(16), 15);
    assert_eq!(Term::Trace(0, 0).degree(9), 8);
    assert_eq!(Term::Other(Other::X).degree(9), 1);
}

#[test]
fn periodic_column_plus_x() {
    let p = sparse(&[(1, 2), (1, 0)]);
    let e = Expression::from_sparse(p).add(Expression::from_other(Other::X));
    assert_eq!(e.degree(1), 2);
    assert_eq!(e.degree(2), 2);
    assert_eq!(e.degree(1 << 15), 2);
    assert_eq!(e.eval(&cell_value, &f(2)), f(7));
}

#[test]
fn other_eval_exact_values() {
    // (X^2 + 5)^3 - 7 X at 2 is 729 - 14
    let e = Other::X
        .mul(Other::X)
        .add(constant(5))
        .pow(3)
        .sub(constant(7).mul(Other::X));
    assert_eq!(e.eval(&f(2)), f(715));
    assert_eq!(Other::from_i64(-4).eval(&f(9)), FieldElement::from_i64(-4));
    assert_eq!(Other::X.neg().eval(&f(9)), FieldElement::from_i64(-9));
}

#[test]
fn expression_eval_reads_the_trace() {
    // T(1, 2) * T(0, -1) + 4 X - T(2, 0) at X = 5
    let e = trace(1, 2)
        .mul(trace(0, -1))
        .add(Expression::from_i64(4).mul(Expression::from_other(Other::X)))
        .sub(trace(2, 0));
    // 15 * 2 + 20 - 23
    assert_eq!(e.eval(&cell_value, &f(5)), f(27));
    assert_eq!(
        Term::Trace(3, -2).eval(&cell_value, &f(5)),
        f(31)
    );
    assert_eq!(Term::Other(Other::X).eval(&cell_value, &f(5)), f(5));
    assert_eq!(Expression::from_field(&f(8)).eval(&cell_value, &f(5)), f(8));
}

#[test]
fn reification_agrees_with_evaluation() {
    let e = Other::X
        .mul(Other::X)
        .add(constant(5))
        .pow(3)
        .sub(Other::PeriodicColumn(sparse(&[(7, 1), (2, 9)])).mul(Other::X.neg()));
    let p = e.to_sparse();
    for x in [0u64, 1, 2, 3, 1 << 50] {
        assert_eq!(p.evaluate(&f(x)), e.eval(&f(x)));
    }
    assert_eq!(
        terms(&Other::X.add(constant(1)).pow(2).to_sparse()),
        vec![(f(1), 0), (f(2), 1), (f(1), 2)]
    );
    assert_eq!(Other::X.sub(Other::X).to_sparse().len(), 0);
    assert_eq!(terms(&Other::X.pow(0).to_sparse()), vec![(f(1), 0)]);
}

#[test]
fn trace_cells_are_not_polynomials() {
    assert_eq!(
        trace(0, 0).to_sparse().err(),
        Some(Error::UnsupportedOperation)
    );
    let mixed = Expression::from_other(Other::X).mul(trace(0, 1).neg());
    assert_eq!(mixed.to_sparse().err(), Some(Error::UnsupportedOperation));
    let plain = Expression::from_other(Other::X)
        .mul(Expression::from_i64(3))
        .add(Expression::from_i64(1).neg());
    assert_eq!(
        terms(&plain.to_sparse().unwrap()),
        vec![(FieldElement::from_i64(-1), 0), (f(3), 1)]
    );
}

#[test]
fn trace_cell_can_only_be_squared() {
    let cell = Term::Trace(2, -1);
    let square = cell.pow(2).unwrap();
    assert!(square.equals(&trace(2, -1).mul(trace(2, -1))));
    assert_eq!(cell.pow(3).err(), Some(Error::UnsupportedOperation));
    assert_eq!(cell.pow(0).err(), Some(Error::UnsupportedOperation));
    assert_eq!(cell.pow(1).err(), Some(Error::UnsupportedOperation));
    let power = Term::Other(Other::X).pow(7).unwrap();
    assert!(power.equals(&Expression::from_other(Other::X.pow(7))));
}

#[test]
fn expressions_compare_by_shape() {
    let a = trace(0, 0).add(Expression::from_i64(1));
    let b = Expression::from_i64(1).add(trace(0, 0));
    assert!(a.equals(&a.duplicate()));
    assert!(!a.equals(&b));
    let mut sum = trace(0, 0);
    sum.add_assign(Expression::from_i64(1));
    assert!(sum.equals(&a));
    assert!(Other::X.equals(&Other::X));
    assert!(!Other::X.equals(&constant(1)));
    assert!(!Other::X.pow(2).equals(&Other::X.pow(3)));
}

#[test]
fn held_polynomial_expressions() {
    assert_eq!(X().degree(), 1);
    assert_eq!(Constant(5).degree(), 0);
    assert_eq!(X().pow(3).degree(), 3);
    let column = PeriodicColumn(sparse(&[(1, 4), (1, 0)]));
    assert_eq!(column.degree(), 4);
    assert_eq!(
        terms(&X().sub(&Constant(1)).to_sparse()),
        vec![(FieldElement::from_i64(-1), 0), (f(1), 1)]
    );
    assert_eq!(terms(&X().sub_integer(-2).to_sparse()), vec![(f(2), 0), (f(1), 1)]);
    assert_eq!(
        terms(&X().sub_field(f(1)).to_sparse()),
        terms(&X().sub_integer(1).to_sparse())
    );
    assert!(Constant(3).less_than(&X()));
    assert!(X().sub(&X()).equals(&Constant(0)));
    assert_eq!(terms(&Constant(-1).to_sparse()), vec![(FieldElement::negative_one(), 0)]);
}

#[test]
fn held_degree_is_that_of_the_shape() {
    // X - X stands for the polynomial without terms and still has degree one
    let difference = X().sub(&X());
    assert_eq!(difference.degree(), 1);
    assert_eq!(difference.checked_degree(), Some(1));
    assert_eq!(difference.to_sparse().len(), 0);
    assert_eq!(X().sub(&Constant(7)).degree(), 1);
    assert_eq!(Constant(7).sub(&Constant(7)).degree(), 0);
    // a power multiplies the degree and stands for the power of the polynomial
    let base = X().sub_integer(1);
    let cube = base.pow(3);
    assert_eq!(cube.degree(), 3);
    assert_eq!(base.degree(), 1);
    assert_eq!(
        terms(&cube.to_sparse()),
        vec![(FieldElement::from_i64(-1), 0), (f(3), 1), (FieldElement::from_i64(-3), 2), (f(1), 3)]
    );
    assert_eq!(terms(&base.pow(0).to_sparse()), vec![(f(1), 0)]);
    assert_eq!(difference.pow(4).degree(), 4);
    let column = PeriodicColumn(sparse(&[(1, 4), (1, 0)]));
    assert_eq!(column.pow(2).degree(), 8);
    assert_eq!(column.sub(&X().pow(9)).degree(), 9);
}

#[test]
fn fraction_product_needs_disjoint_denominators() {
    let p = sparse(&[(1, 1), (1, 0)]);
    let a = Fraction::new(Expression::from_i64(2), vec![p.duplicate()]);
    let b = Fraction::new(Expression::from_i64(3), vec![p.duplicate()]);
    assert_eq!(a.mul(&b).err(), Some(Error::NonDisjointDenominators));
    let mut c = a.duplicate();
    assert_eq!(c.mul_assign(&b), Err(Error::NonDisjointDenominators));
    assert!(c.equals(&a));
    assert!(!a.disjoint(&b));
    let q = sparse(&[(1, 2), (3, 0)]);
    let d = Fraction::new(Expression::from_i64(3), vec![q.duplicate()]);
    assert!(a.disjoint(&d));
    let product = a.mul(&d).unwrap();
    assert!(product
        .numerator()
        .equals(&Expression::from_i64(2).mul(Expression::from_i64(3))));
    assert_eq!(product.denominator().len(), 2);
    assert!(product.denominator()[0].equals(&p));
    assert!(product.denominator()[1].equals(&q));
}

#[test]
fn fraction_sum_over_common_denominator() {
    let p = sparse(&[(1, 1), (1, 0)]);
    let q = sparse(&[(1, 2), (3, 0)]);
    let r = sparse(&[(1, 3)]);
    let a = Fraction::new(trace(0, 0), vec![q.duplicate(), p.duplicate()]);
    let b = Fraction::new(trace(0, 1), vec![p.duplicate(), r.duplicate()]);
    let sum = a.add(&b);
    // the denominators are sets in the order of the polynomials
    assert_eq!(a.denominator().len(), 2);
    assert!(a.denominator()[0].equals(&p));
    assert_eq!(sum.denominator().len(), 3);
    assert!(sum.denominator()[0].equals(&p));
    assert!(sum.denominator()[1].equals(&q));
    assert!(sum.denominator()[2].equals(&r));
    let expected = trace(0, 0)
        .mul(Expression::from_sparse(r.duplicate()))
        .add(trace(0, 1).mul(Expression::from_sparse(q.duplicate())));
    assert!(sum.numerator().equals(&expected));
    let mut c = a.duplicate();
    c.add_assign(&b);
    assert!(c.equals(&sum));
}

#[test]
fn fraction_constants_and_division() {
    let zero = Fraction::zero();
    let one = Fraction::one();
    assert!(zero.numerator().equals(&Expression::from_i64(0)));
    assert!(one.numerator().equals(&Expression::from_i64(1)));
    assert_eq!(zero.denominator().len(), 0);
    assert_eq!(one.denominator().len(), 0);
    let mut x = Fraction::from_other(Other::X);
    assert!(x.numerator().equals(&Expression::from_other(Other::X)));
    let p = sparse(&[(1, 1), (1, 0)]);
    x.div_assign(p.duplicate());
    x.div_assign(p.duplicate());
    assert_eq!(x.denominator().len(), 1);
    x.div_assign(sparse(&[(1, 0)]));
    assert_eq!(x.denominator().len(), 2);
    assert!(x.denominator()[0].equals(&sparse(&[(1, 0)])));
    // the product of the factors, as an expression
    let product = openstark::fraction::from(x.denominator());
    assert!(product.equals(&Expression::from_sparse(p.duplicate())));
    let none: Vec<SparsePolynomial> = Vec::new();
    assert!(openstark::fraction::from(&none).equals(&Expression::from_sparse(sparse(&[(1, 0)]))));
}

#[test]
fn multinomial_of_leaves() {
    let cell = TraceMultinomial::from_expression(&trace(3, -1));
    assert_eq!(keys(&cell), vec![vec![(3usize, -1isize)]]);
    assert!(cell.monomial(0).coefficient().equals(&Fraction::one()));
    let poly = TraceMultinomial::from_expression(&Expression::from_other(Other::X));
    assert_eq!(keys(&poly), vec![Vec::<(usize, isize)>::new()]);
    assert!(poly
        .monomial(0)
        .coefficient()
        .equals(&Fraction::from_other(Other::X)));
}

#[test]
fn multinomial_sum_is_sum_of_multinomials() {
    let a = trace(0, 0).mul(trace(1, 0)).add(Expression::from_i64(3));
    let b = trace(1, 0).add(trace(0, 0).mul(trace(1, 0)));
    let whole = TraceMultinomial::from_expression(&a.duplicate().add(b.duplicate()));
    let parts = TraceMultinomial::from_expression(&a).add(&TraceMultinomial::from_expression(&b));
    assert_eq!(keys(&whole), keys(&parts));
    assert_eq!(
        keys(&whole),
        vec![vec![], vec![(0, 0), (1, 0)], vec![(1, 0)]]
    );
    for k in 0..whole.len() {
        assert!(whole
            .monomial(k)
            .coefficient()
            .equals(parts.monomial(k).coefficient()));
    }
}

#[test]
fn multinomial_product_sorts_cells() {
    let ab = TraceMultinomial::from_expression(&trace(0, 1).mul(trace(2, -3)));
    let ba = TraceMultinomial::from_expression(&trace(2, -3).mul(trace(0, 1)));
    assert_eq!(keys(&ab), keys(&ba));
    assert_eq!(keys(&ab), vec![vec![(0, 1), (2, -3)]]);
    // (a + b)(a - b) has the monomials a^2 and b^2: those of a b cancel
    let a = trace(1, 0);
    let b = trace(0, 5);
    let product = TraceMultinomial::from_expression(
        &a.duplicate()
            .add(b.duplicate())
            .mul(a.duplicate().sub(b.duplicate())),
    );
    assert_eq!(
        keys(&product),
        vec![vec![(0, 5), (0, 5)], vec![(1, 0), (1, 0)]]
    );
    // (a + b)(a + b) keeps all three, with 2 a b in the middle
    let square = TraceMultinomial::from_expression(
        &a.duplicate()
            .add(b.duplicate())
            .mul(a.duplicate().add(b.duplicate())),
    );
    assert_eq!(
        keys(&square),
        vec![
            vec![(0, 5), (0, 5)],
            vec![(0, 5), (1, 0)],
            vec![(1, 0), (1, 0)]
        ]
    );
    let middle = square.monomial(1).coefficient().numerator().to_sparse().unwrap();
    assert_eq!(terms(&middle), vec![(f(2), 0)]);
}

#[test]
fn multinomial_keeps_no_zero_coefficient() {
    // a cell minus itself is the multinomial without monomials
    let nothing = TraceMultinomial::from_expression(&trace(0, 0).sub(trace(0, 0)));
    assert_eq!(nothing.len(), 0);
    assert_eq!(keys(&nothing), Vec::<Vec<(usize, isize)>>::new());
    // so is the constant zero, and X - X
    assert_eq!(TraceMultinomial::from_expression(&Expression::from_i64(0)).len(), 0);
    let x = Expression::from_other(Other::X);
    assert_eq!(TraceMultinomial::from_expression(&x.duplicate().sub(x)).len(), 0);
    // one monomial with the coefficient zero is none
    assert_eq!(TraceMultinomial::new(vec![(2, 1)], Fraction::zero()).len(), 0);
    assert_eq!(TraceMultinomial::new(vec![(2, 1)], Fraction::one()).len(), 1);
    // what cancels leaves, what does not stays
    let e = trace(0, 0).mul(trace(1, 2)).add(trace(3, 0)).sub(trace(1, 2).mul(trace(0, 0)));
    let m = TraceMultinomial::from_expression(&e);
    assert_eq!(keys(&m), vec![vec![(3, 0)]]);
    let sum = TraceMultinomial::from_expression(&trace(4, 0))
        .add(&TraceMultinomial::from_expression(&trace(4, 0).neg()));
    assert_eq!(sum.len(), 0);
    // a product with the multinomial without monomials has none
    let product = TraceMultinomial::from_expression(&trace(4, 0)).mul(&nothing).unwrap();
    assert_eq!(product.len(), 0);
    // over the domain the multinomial without monomials is the constant zero
    let p = nothing.eval_on_domain(&cell_polynomial).unwrap();
    assert_eq!(p.evaluate(&f(5)), f(0));
    // a coefficient with a trace cell is kept, whatever it would come to
    let held = TraceMultinomial::new(vec![], Fraction::new(trace(0, 0).sub(trace(0, 0)), vec![]));
    assert_eq!(held.len(), 1);
}

/// A table that holds one cell only.
fn only_cell(i: usize, j: isize) -> FieldElement {
    if (i, j) == (1, 0) {
        f(11)
    } else {
        panic!("no such cell")
    }
}

/// A table that holds the polynomial `3 + X` in one cell only.
fn only_polynomial(i: usize, j: isize) -> DensePolynomial {
    if (i, j) == (1, 0) {
        dense(&[3, 1])
    } else {
        panic!("no such cell")
    }
}

#[test]
fn evaluators_ask_for_the_cells_of_the_expression_only() {
    let cell = Expression::Term(Term::Trace(1, 0));
    let p = cell.eval_on_domain(&only_polynomial);
    assert_eq!(coefficients(&p), vec![f(3), f(1)]);
    assert_eq!(cell.eval(&only_cell, &f(2)), f(11));
    let e = trace(1, 0).mul(trace(1, 0)).add(Expression::from_other(Other::X)).neg();
    assert_eq!(e.eval(&only_cell, &f(2)), FieldElement::from_i64(-123));
    let q = e.eval_on_domain(&only_polynomial);
    // -((3 + X)^2 + X) = -9 - 7 X - X^2
    assert_eq!(q.evaluate(&f(0)), FieldElement::from_i64(-9));
    assert_eq!(q.evaluate(&f(1)), FieldElement::from_i64(-17));
    assert_eq!(q.evaluate(&f(2)), e.eval(&|i, j| only_polynomial(i, j).evaluate(&f(2)), &f(2)));
    let m = TraceMultinomial::from_expression(&e);
    assert_eq!(keys(&m), vec![vec![], vec![(1, 0), (1, 0)]]);
    assert!(m.eval_on_domain(&only_polynomial).is_some());
}

#[test]
fn expression_without_cells_never_asks_the_table() {
    let e = Expression::from_other(Other::X.pow(3).sub(constant(2)))
        .mul(Expression::from_i64(-4))
        .add(Expression::from_sparse(sparse(&[(1, 1), (6, 0)])));
    let x = f(3);
    let asked = |_: usize, _: isize| -> FieldElement { panic!("asked") };
    // (27 - 2) * -4 + (3 + 6) = -91
    assert_eq!(e.eval(&asked, &x), FieldElement::from_i64(-91));
    assert_eq!(e.to_sparse().unwrap().evaluate(&x), FieldElement::from_i64(-91));
}

#[test]
fn multinomial_division_divides_every_coefficient() {
    let m = TraceMultinomial::from_expression(&trace(0, 0).add(Expression::from_i64(1)));
    let p = sparse(&[(1, 1), (1, 0)]);
    let divided = m.div(&p).div(&p);
    assert_eq!(keys(&divided), keys(&m));
    for k in 0..divided.len() {
        let coefficient = divided.monomial(k).coefficient();
        assert_eq!(coefficient.denominator().len(), 1);
        assert!(coefficient.denominator()[0].equals(&p));
        assert!(coefficient
            .numerator()
            .equals(m.monomial(k).coefficient().numerator()));
    }
    // two multinomials over the same factor cannot be multiplied
    assert_eq!(
        divided.mul(&divided).err(),
        Some(Error::NonDisjointDenominators)
    );
    assert!(!divided.disjoint(&divided));
    assert!(divided.disjoint(&m));
}

#[test]
fn threshold_selects_the_same_product() {
    assert_eq!(SPARSE_THRESHOLD, 20);
    let few: Vec<(u64, usize)> = (0..19).map(|k| (k as u64 + 1, 2 * k)).collect();
    let many: Vec<(u64, usize)> = (0..20).map(|k| (k as u64 + 1, 2 * k)).collect();
    for pairs in [few, many] {
        let s = sparse(&pairs);
        let mut p = dense(&[1, 2, 3]);
        mul_assign(&mut p, s.duplicate());
        let expected = dense(&[1, 2, 3]).mul(&DensePolynomial::from_sparse(&s));
        for x in [0u64, 1, 2, 77] {
            assert_eq!(p.evaluate(&f(x)), expected.evaluate(&f(x)));
            assert_eq!(
                p.evaluate(&f(x)),
                dense(&[1, 2, 3]).evaluate(&f(x)).mul(&s.evaluate(&f(x)))
            );
        }
    }
    let mut p = dense(&[1, 1]);
    mul_assign(&mut p, sparse(&[(1, 1), (1, 0)]));
    assert_eq!(coefficients(&p), vec![f(1), f(2), f(1)]);
}

#[test]
fn domain_evaluation_exact_polynomial() {
    // T(0, 0) * T(1, 0) + X with T(0, 0) = X + 2 and T(1, 0) = 2 X + 2
    let e = trace(0, 0)
        .mul(trace(1, 0))
        .add(Expression::from_other(Other::X));
    let p = e.eval_on_domain(&cell_polynomial);
    // 2 X^2 + 6 X + 4 + X
    assert_eq!(p.degree(), 2);
    assert_eq!(p.coefficient(0), f(4));
    assert_eq!(p.coefficient(1), f(7));
    assert_eq!(p.coefficient(2), f(2));
    assert_eq!(p.coefficient(3), f(0));
}

#[test]
fn evaluators_agree() {
    let e = trace(0, 0)
        .mul(trace(1, -1))
        .sub(Expression::from_other(Other::X.pow(3).add(constant(4))).mul(trace(2, 1)))
        .add(trace(0, 0).mul(trace(0, 0)).neg())
        .add(Expression::from_sparse(sparse(&[(5, 2), (1, 0)])));
    let p = e.eval_on_domain(&cell_polynomial);
    for x in [0u64, 1, 2, 3, 1000, 1 << 33] {
        let x = f(x);
        let pointwise = e.eval(&|i, j| cell_polynomial(i, j).evaluate(&x), &x);
        assert_eq!(p.evaluate(&x), pointwise);
    }
}

#[test]
fn multinomial_with_denominators_over_the_domain() {
    // (T(0, 0) * (X + 1)) / (X + 1) is T(0, 0) again
    let x_plus_one = sparse(&[(1, 1), (1, 0)]);
    let e = trace(0, 0).mul(Expression::from_sparse(x_plus_one.duplicate()));
    let m = TraceMultinomial::from_expression(&e).div(&x_plus_one);
    let p = m.eval_on_domain(&cell_polynomial).unwrap();
    assert_eq!(p.coefficient(0), f(2));
    assert_eq!(p.coefficient(1), f(1));
    assert_eq!(p.degree(), 1);
    // T(0, 0) = X + 2 alone is no multiple of X + 1
    let inexact = TraceMultinomial::from_expression(&trace(0, 0)).div(&x_plus_one);
    assert!(inexact.eval_on_domain(&cell_polynomial).is_none());
    // a numerator with a trace cell cannot be made a polynomial
    let odd = TraceMultinomial::new(vec![], Fraction::new(trace(0, 0), vec![]));
    assert!(odd.eval_on_domain(&cell_polynomial).is_none());
}
