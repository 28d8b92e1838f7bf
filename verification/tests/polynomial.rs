use openstark::field::FieldElement;
use openstark::polynomial::dense::DensePolynomial;
use openstark::polynomial::sparse::SparsePolynomial;

fn f(n: u64) -> FieldElement {
    FieldElement::from_u64(n)
}

fn sparse(pairs: &[(u64, usize)]) -> SparsePolynomial {
    let pairs: Vec<(FieldElement, usize)> = pairs.iter().map(|&(c, e)| (f(c), e)).collect();
    SparsePolynomial::new(&pairs)
}

fn dense(coefficients: &[u64]) -> DensePolynomial {
    let coefficients: Vec<FieldElement> = coefficients.iter().map(|&c| f(c)).collect();
    DensePolynomial::new(&coefficients)
}

fn terms(p: &SparsePolynomial) -> Vec<(FieldElement, usize)> {
    (0..p.len()).map(|k| p.term(k)).collect()
}

fn coefficients(p: &DensePolynomial) -> Vec<FieldElement> {
    (0..p.len()).map(|k| p.coefficient(k)).collect()
}

#[test]
fn sparse_new_orders_and_merges_terms() {
    let p = sparse(&[(3, 2), (1, 0), (4, 2), (0, 7)]);
    assert_eq!(terms(&p), vec![(f(1), 0), (f(7), 2)]);
    assert_eq!(p.len(), 2);
    assert_eq!(p.degree(), 2);
    let zero = sparse(&[]);
    assert_eq!(zero.len(), 0);
    assert_eq!(zero.degree(), 0);
}

#[test]
fn sparse_new_drops_terms_that_cancel() {
    let minus_three = FieldElement::from_i64(-3);
    let p = SparsePolynomial::new(&[(f(3), 5), (minus_three, 5), (f(2), 1)]);
    assert_eq!(terms(&p), vec![(f(2), 1)]);
}

#[test]
fn sparse_evaluate_exact_value() {
    // X^2 + 1 at 2, and 3 X^5 + 2 X + 7 at 2
    assert_eq!(sparse(&[(1, 2), (1, 0)]).evaluate(&f(2)), f(5));
    assert_eq!(sparse(&[(3, 5), (2, 1), (7, 0)]).evaluate(&f(2)), f(107));
    assert_eq!(sparse(&[]).evaluate(&f(2)), f(0));
}

#[test]
fn sparse_sum_and_difference() {
    let a = sparse(&[(1, 0), (2, 3)]);
    let b = sparse(&[(5, 1), (4, 3)]);
    assert_eq!(terms(&a.add(&b)), vec![(f(1), 0), (f(5), 1), (f(6), 3)]);
    assert_eq!(a.sub(&a).len(), 0);
    let d = b.sub(&a);
    assert_eq!(
        terms(&d),
        vec![(FieldElement::from_i64(-1), 0), (f(5), 1), (f(2), 3)]
    );
    assert_eq!(terms(&a.neg().neg()), terms(&a));
}

#[test]
fn sparse_product_and_power() {
    let x_plus_one = sparse(&[(1, 1), (1, 0)]);
    let square = x_plus_one.mul(&x_plus_one);
    assert_eq!(terms(&square), vec![(f(1), 0), (f(2), 1), (f(1), 2)]);
    assert!(square.equals(&x_plus_one.pow(2)));
    let cube = x_plus_one.pow(3);
    assert_eq!(
        terms(&cube),
        vec![(f(1), 0), (f(3), 1), (f(3), 2), (f(1), 3)]
    );
    assert_eq!(terms(&x_plus_one.pow(0)), vec![(f(1), 0)]);
    assert_eq!(x_plus_one.mul(&sparse(&[])).len(), 0);
    let big = SparsePolynomial::x().pow(1000);
    assert_eq!(terms(&big), vec![(f(1), 1000)]);
}

#[test]
fn sparse_product_agrees_with_values() {
    let a = sparse(&[(3, 4), (2, 1), (9, 0)]);
    let b = sparse(&[(5, 2), (1, 0)]);
    for x in [0u64, 1, 2, 17, 1 << 40] {
        let x = f(x);
        assert_eq!(
            a.mul(&b).evaluate(&x),
            a.evaluate(&x).mul(&b.evaluate(&x))
        );
        assert_eq!(
            a.add(&b).evaluate(&x),
            a.evaluate(&x).add(&b.evaluate(&x))
        );
        assert_eq!(a.pow(3).evaluate(&x), a.evaluate(&x).pow(3));
    }
}

#[test]
fn sparse_order_is_by_degree_then_terms() {
    let small = sparse(&[(9, 1)]);
    let large = sparse(&[(1, 2)]);
    assert!(small.less_than(&large));
    assert!(!large.less_than(&small));
    let a = sparse(&[(1, 0), (1, 2)]);
    let b = sparse(&[(2, 0), (1, 2)]);
    assert!(a.less_than(&b));
    assert!(!b.less_than(&a));
    assert!(!a.less_than(&a));
    assert!(a.equals(&a.duplicate()));
    assert!(!a.equals(&b));
}

#[test]
fn dense_sum_product_and_value() {
    let a = dense(&[1, 2, 3]);
    let b = dense(&[5, 1]);
    assert_eq!(coefficients(&a.add(&b)), vec![f(6), f(3), f(3)]);
    assert_eq!(coefficients(&a.mul(&b)), vec![f(5), f(11), f(17), f(3)]);
    assert_eq!(a.evaluate(&f(2)), f(17));
    assert_eq!(a.degree(), 2);
    assert_eq!(dense(&[4, 0, 0]).degree(), 0);
    assert_eq!(dense(&[0, 4, 0]).degree(), 1);
    assert_eq!(DensePolynomial::empty().len(), 0);
    assert_eq!(coefficients(&a.scale(&f(2))), vec![f(2), f(4), f(6)]);
    assert_eq!(coefficients(&b.shift(2)), vec![f(0), f(0), f(5), f(1)]);
}

#[test]
fn dense_times_sparse_both_ways() {
    let a = dense(&[1, 2, 3]);
    let s = sparse(&[(5, 0), (1, 1)]);
    assert_eq!(coefficients(&a.mul_sparse(&s)), vec![f(5), f(11), f(17), f(3)]);
    assert_eq!(
        coefficients(&DensePolynomial::from_sparse(&sparse(&[(7, 3), (2, 0)]))),
        vec![f(2), f(0), f(0), f(7)]
    );
    assert_eq!(DensePolynomial::from_sparse(&sparse(&[])).len(), 0);
}

#[test]
fn dense_exact_division() {
    // (X - 1)(X^2 + 2 X + 3) = X^3 + X^2 + X - 3
    let x_minus_one = SparsePolynomial::new(&[(f(1), 1), (FieldElement::from_i64(-1), 0)]);
    let product = dense(&[3, 2, 1]).mul_sparse(&x_minus_one);
    let quotient = product.div_sparse(&x_minus_one).unwrap();
    assert_eq!(coefficients(&quotient), vec![f(3), f(2), f(1)]);
    // X^2 + 1 is no multiple of X - 1
    assert!(dense(&[1, 0, 1]).div_sparse(&x_minus_one).is_none());
    // nothing is divided by zero
    assert!(dense(&[1, 0, 1]).div_sparse(&sparse(&[])).is_none());
    // by a constant
    let halves = dense(&[2, 4, 6]).div_sparse(&sparse(&[(2, 0)])).unwrap();
    assert_eq!(coefficients(&halves), vec![f(1), f(2), f(3)]);
}

#[test]
fn sparse_exact_division() {
    let x_minus_one = SparsePolynomial::new(&[(f(1), 1), (FieldElement::from_i64(-1), 0)]);
    let difference = SparsePolynomial::new(&[(f(1), 2), (FieldElement::from_i64(-1), 0)]);
    let quotient = difference.div(&x_minus_one).unwrap();
    assert_eq!(terms(&quotient), vec![(f(1), 0), (f(1), 1)]);
    assert!(sparse(&[(1, 2), (1, 0)]).div(&x_minus_one).is_none());
    assert!(difference.div(&sparse(&[])).is_none());
    // X^100 - 1 by X^50 + 1
    let high = SparsePolynomial::new(&[(f(1), 100), (FieldElement::from_i64(-1), 0)]);
    let quotient = high.div(&sparse(&[(1, 50), (1, 0)])).unwrap();
    assert_eq!(
        terms(&quotient),
        vec![(FieldElement::from_i64(-1), 0), (f(1), 50)]
    );
    assert_eq!(
        terms(&dense(&[0, 3, 0, 5, 0]).to_sparse()),
        vec![(f(3), 1), (f(5), 3)]
    );
    assert_eq!(DensePolynomial::empty().to_sparse().len(), 0);
}
