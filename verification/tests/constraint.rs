use openstark::constraint::{
    combine_constraints, combine_constraints_with_cap, Constraint, GroupedConstraints,
    CONSTRAINT_CAP,
};
use openstark::error::Error;
use openstark::expression::{Expression, Other};
use openstark::field::FieldElement;
use openstark::polynomial::dense::DensePolynomial;

fn f(n: u64) -> FieldElement {
    FieldElement::from_u64(n)
}

fn trace(column: usize, offset: isize) -> Expression {
    Expression::trace(column, offset)
}

fn x_minus_one() -> Other {
    Other::X.sub(Other::Constant(f(1)))
}

fn boundary(column: usize, offset: isize) -> Constraint {
    Constraint {
        base: trace(column, offset),
        denominator: x_minus_one(),
        numerator: Other::Constant(f(1)),
    }
}

/// The cell of column `i` at offset `j` holds `10 i + j + 3`.
fn cell_value(i: usize, j: isize) -> FieldElement {
    FieldElement::from_i64(10 * (i as i64) + (j as i64) + 3)
}

/// Every cell is the polynomial `(X - 1)(X + j + 2)`, a multiple of `X - 1`.
fn cell_polynomial(_i: usize, j: isize) -> DensePolynomial {
    let minus_one = FieldElement::from_i64(-1);
    let c = FieldElement::from_i64(j as i64 + 2);
    DensePolynomial::new(&[minus_one.mul(&c), c.add(&minus_one), f(1)])
}

#[test]
fn constraint_degree_formula() {
    let c = Constraint {
        base: trace(0, 0).mul(trace(1, 0)),
        denominator: Other::X.pow(3).sub(Other::Constant(f(1))),
        numerator: Other::X.add(Other::Constant(f(2))),
    };
    // 2 * 7 + 1 - 3
    assert_eq!(c.degree(8), 12);
    assert_eq!(boundary(0, 0).degree(4), 2);
    assert_eq!(boundary(0, 0).degree(5), 3);
    assert!(c.duplicate().base.equals(&c.base));
}

#[test]
fn constraint_eval_divides() {
    let c = Constraint {
        base: trace(0, 0),
        denominator: x_minus_one(),
        numerator: Other::Constant(f(6)),
    };
    // 3 * 6 / (4 - 1)
    assert_eq!(c.eval(&cell_value, &f(4)), Ok(f(6)));
    assert_eq!(c.eval(&cell_value, &f(1)), Err(Error::DivisionByZero));
}

#[test]
fn single_constraint_is_lifted_to_the_target() {
    // degree 3 with five rows: the target is 3 and nothing is to be lifted
    let constraints = [boundary(0, 0)];
    let (grouped, warning) = combine_constraints(&constraints, &[f(1), f(0)], 5).unwrap();
    assert_eq!(warning, None);
    assert_eq!(grouped.len(), 1);
    let bucket = grouped.bucket(0);
    assert!(bucket.numerator().equals(&Other::Constant(f(1))));
    assert!(bucket.denominator().equals(&x_minus_one()));
    let expected = Expression::from_field(&f(1))
        .mul(trace(0, 0))
        .add(
            Expression::from_field(&f(0))
                .mul(trace(0, 0))
                .mul(Expression::from_other(Other::X.pow(0))),
        );
    assert!(bucket.value().equals(&expected));
    // over the domain it is the trace polynomial divided by X - 1
    let p = grouped.eval_on_domain(&cell_polynomial).unwrap();
    assert_eq!(p.degree(), 1);
    assert_eq!(p.coefficient(0), f(2));
    assert_eq!(p.coefficient(1), f(1));
    for x in [0u64, 2, 3, 99] {
        let x = f(x);
        let quotient = cell_polynomial(0, 0)
            .evaluate(&x)
            .div(&x.sub(&f(1)))
            .unwrap();
        assert_eq!(p.evaluate(&x), quotient);
    }
}

#[test]
fn degree_at_a_power_of_two_cannot_be_lifted() {
    // with four rows the degree is 2, a power of two: the target is 1
    let constraints = [boundary(0, 0)];
    let r = combine_constraints(&constraints, &[f(1), f(0)], 4);
    assert_eq!(r.err(), Some(Error::NegativeDegreeAdjustment));
    // a smaller constraint beside it changes nothing
    let constraints = [
        Constraint {
            base: Expression::from_i64(1),
            denominator: Other::Constant(f(1)),
            numerator: Other::Constant(f(1)),
        },
        boundary(0, 0),
    ];
    let r = combine_constraints(&constraints, &[f(1), f(1), f(1), f(1)], 4);
    assert_eq!(r.err(), Some(Error::NegativeDegreeAdjustment));
}

#[test]
fn adjustment_lifts_smaller_constraints() {
    // degrees 5 and 3: the target is 7, the adjustments are 2 and 4
    let constraints = [
        Constraint {
            base: trace(0, 0),
            denominator: Other::Constant(f(1)),
            numerator: Other::X,
        },
        boundary(1, 0),
    ];
    let coefficients = [f(2), f(3), f(5), f(7)];
    let (grouped, warning) = combine_constraints(&constraints, &coefficients, 5).unwrap();
    assert_eq!(warning, None);
    assert_eq!(grouped.len(), 2);
    // the keys are in the order of the numerators: 1 comes before X
    assert!(grouped.bucket(0).numerator().equals(&Other::Constant(f(1))));
    assert!(grouped.bucket(1).numerator().equals(&Other::X));
    let first = Expression::from_field(&f(2))
        .mul(trace(0, 0))
        .add(
            Expression::from_field(&f(3))
                .mul(trace(0, 0))
                .mul(Expression::from_other(Other::X.pow(2))),
        );
    let second = Expression::from_field(&f(5))
        .mul(trace(1, 0))
        .add(
            Expression::from_field(&f(7))
                .mul(trace(1, 0))
                .mul(Expression::from_other(Other::X.pow(4))),
        );
    assert!(grouped.bucket(1).value().equals(&first));
    assert!(grouped.bucket(0).value().equals(&second));
    // with its numerator and denominator each lifted expression has degree 7
    assert_eq!(first.degree(5) + 1, 7);
    assert_eq!(second.degree(5) - 1, 7);
}

#[test]
fn same_key_shares_one_bucket() {
    let constraints = [boundary(0, 0), boundary(0, 1)];
    let ones = [f(1), f(1), f(1), f(1)];
    let (grouped, warning) = combine_constraints(&constraints, &ones, 5).unwrap();
    assert_eq!(warning, None);
    assert_eq!(grouped.len(), 1);
    // the bucket has the value of base0 + base1 + (base0 + base1) X^e, e = 0
    let sum = trace(0, 0).add(trace(0, 1));
    let expected = sum
        .duplicate()
        .add(sum.duplicate().mul(Expression::from_other(Other::X.pow(0))));
    for x in [0u64, 2, 5, 1 << 20] {
        let x = f(x);
        assert_eq!(
            grouped.bucket(0).value().eval(&cell_value, &x),
            expected.eval(&cell_value, &x)
        );
    }
    // keys that stand for the same polynomials are one key
    let constraints = [
        boundary(0, 0),
        Constraint {
            base: trace(0, 1),
            denominator: Other::Constant(f(1)).neg().add(Other::X),
            numerator: Other::Constant(f(3)).sub(Other::Constant(f(2))),
        },
    ];
    let (grouped, _) = combine_constraints(&constraints, &ones, 5).unwrap();
    assert_eq!(grouped.len(), 1);
    assert!(grouped.bucket(0).denominator().equals(&x_minus_one()));
}

#[test]
fn only_the_first_thirty_are_combined() {
    assert_eq!(CONSTRAINT_CAP, 30);
    let constraints: Vec<Constraint> = (0..31)
        .map(|k| Constraint {
            base: trace(k, 0),
            denominator: Other::Constant(f(1)),
            numerator: Other::X.pow(k),
        })
        .collect();
    let coefficients: Vec<FieldElement> = (0..62).map(|k| f(k + 1)).collect();
    let (grouped, warning) = combine_constraints(&constraints, &coefficients, 2).unwrap();
    assert_eq!(warning, Some(Error::ConstraintCap));
    assert_eq!(grouped.len(), 30);
    for k in 0..30 {
        assert!(grouped.bucket(k).numerator().equals(&Other::X.pow(k)));
    }
    // sixty coefficients are enough, and thirty constraints give no warning
    let (grouped, warning) =
        combine_constraints(&constraints[..30], &coefficients[..60], 2).unwrap();
    assert_eq!(warning, None);
    assert_eq!(grouped.len(), 30);
    // the cap can be set
    let (grouped, warning) =
        combine_constraints_with_cap(&constraints, &coefficients, 2, 3).unwrap();
    assert_eq!(warning, Some(Error::ConstraintCap));
    assert_eq!(grouped.len(), 3);
    let (grouped, warning) =
        combine_constraints_with_cap(&constraints, &coefficients, 2, 31).unwrap();
    assert_eq!(warning, None);
    assert_eq!(grouped.len(), 31);
}

#[test]
fn no_constraints_give_no_buckets() {
    let (grouped, warning) = combine_constraints(&[], &[], 8).unwrap();
    assert_eq!(warning, None);
    assert_eq!(grouped.len(), 0);
    assert_eq!(grouped.eval(&cell_value, &f(3)), Ok(f(0)));
    assert_eq!(GroupedConstraints::new().len(), 0);
}

#[test]
fn grouped_insert_adds_to_the_bucket() {
    let mut grouped = GroupedConstraints::new();
    grouped.insert((Other::X, x_minus_one()), trace(0, 0));
    grouped.insert((Other::Constant(f(1)), x_minus_one()), trace(1, 0));
    grouped.insert((Other::X, x_minus_one()), trace(2, 0));
    grouped.insert((Other::X, Other::Constant(f(1))), trace(3, 0));
    assert_eq!(grouped.len(), 3);
    assert!(grouped.bucket(0).value().equals(&trace(1, 0)));
    assert!(grouped.bucket(1).value().equals(&trace(3, 0)));
    assert!(grouped
        .bucket(2)
        .value()
        .equals(&trace(0, 0).add(trace(2, 0))));
}

#[test]
fn grouped_value_is_the_sum_of_the_constraints() {
    let constraints = [
        boundary(0, 0),
        Constraint {
            base: trace(1, 0).mul(trace(0, 1)),
            denominator: Other::X.pow(2).sub(Other::Constant(f(4))),
            numerator: Other::X.add(Other::Constant(f(1))),
        },
        boundary(2, 2),
    ];
    let coefficients = [f(2), f(3), f(5), f(7), f(11), f(13)];
    let length = 4;
    let (grouped, _) = combine_constraints(&constraints, &coefficients, length).unwrap();
    assert_eq!(grouped.len(), 2);
    // degrees 2, 5 and 2: the target is 7
    let target = 7;
    for x in [0u64, 3, 5, 1 << 30] {
        let x = f(x);
        let mut sum = f(0);
        for (i, c) in constraints.iter().enumerate() {
            let lift = x.pow(target - c.degree(length));
            let weight = coefficients[2 * i].add(&coefficients[2 * i + 1].mul(&lift));
            sum = sum.add(&weight.mul(&c.eval(&cell_value, &x).unwrap()));
        }
        assert_eq!(grouped.eval(&cell_value, &x), Ok(sum));
    }
    assert_eq!(
        grouped.eval(&cell_value, &f(1)),
        Err(Error::DivisionByZero)
    );
    assert_eq!(
        grouped.eval(&cell_value, &f(2)),
        Err(Error::DivisionByZero)
    );
}

#[test]
fn grouped_evaluators_agree() {
    let constraints = [
        boundary(0, 0),
        boundary(0, 1),
        Constraint {
            base: trace(1, 0).mul(trace(0, 1)),
            denominator: x_minus_one().mul(x_minus_one()),
            numerator: Other::X.add(Other::Constant(f(1))),
        },
    ];
    let coefficients = [f(2), f(3), f(5), f(7), f(11), f(13)];
    let (grouped, _) = combine_constraints(&constraints, &coefficients, 4).unwrap();
    let p = grouped.eval_on_domain(&cell_polynomial).unwrap();
    for x in [0u64, 2, 3, 1 << 30] {
        let x = f(x);
        let pointwise = grouped
            .eval(&|i, j| cell_polynomial(i, j).evaluate(&x), &x)
            .unwrap();
        assert_eq!(p.evaluate(&x), pointwise);
    }
    // the sum of the constraints one by one is the same value: the degrees
    // are 2, 2 and 5, and the target is 7
    let mut sum = f(0);
    let x = f(12);
    for (i, c) in constraints.iter().enumerate() {
        let lift = x.pow(7 - c.degree(4));
        let weight = coefficients[2 * i].add(&coefficients[2 * i + 1].mul(&lift));
        let value = c
            .eval(&|i, j| cell_polynomial(i, j).evaluate(&x), &x)
            .unwrap();
        sum = sum.add(&weight.mul(&value));
    }
    assert_eq!(p.evaluate(&x), sum);
}

#[test]
fn inexact_division_over_the_domain() {
    let constraints = [boundary(0, 0)];
    let (grouped, _) = combine_constraints(&constraints, &[f(1), f(0)], 5).unwrap();
    // X + 2 is no multiple of X - 1
    let p = grouped.eval_on_domain(&|_i, _j| DensePolynomial::new(&[f(2), f(1)]));
    assert!(p.is_none());
}

#[test]
fn shared_bucket_with_a_lift() {
    // two constraints of degree 5 under one key are lifted to 7 by X^2
    let constraints = [boundary(0, 0), boundary(0, 1)];
    let ones = [f(1), f(1), f(1), f(1)];
    assert_eq!(constraints[0].degree(7), 5);
    let (grouped, warning) = combine_constraints(&constraints, &ones, 7).unwrap();
    assert_eq!(warning, None);
    assert_eq!(grouped.len(), 1);
    assert!(grouped.bucket(0).numerator().equals(&Other::Constant(f(1))));
    assert!(grouped.bucket(0).denominator().equals(&x_minus_one()));
    for x in [0u64, 2, 5, 1 << 20] {
        let x = f(x);
        let sum = cell_value(0, 0).add(&cell_value(0, 1));
        let expected = sum.add(&sum.mul(&x.square()));
        assert_eq!(grouped.bucket(0).value().eval(&cell_value, &x), expected);
    }
    // (3 + 4) + (3 + 4) * 5^2 = 182
    assert_eq!(grouped.bucket(0).value().eval(&cell_value, &f(5)), f(182));
}

#[test]
fn grouped_evaluators_ask_for_their_cells_only() {
    let only_value = |i: usize, j: isize| -> FieldElement {
        if (i, j) == (1, 0) {
            f(6)
        } else {
            panic!("no such cell")
        }
    };
    // the one cell is (X - 1)(X + 2)
    let only_polynomial = |i: usize, j: isize| -> DensePolynomial {
        if (i, j) == (1, 0) {
            DensePolynomial::new(&[FieldElement::from_i64(-2), f(1), f(1)])
        } else {
            panic!("no such cell")
        }
    };
    let constraint = boundary(1, 0);
    assert_eq!(constraint.eval(&only_value, &f(3)), Ok(f(3)));
    let (grouped, _) = combine_constraints(&[boundary(1, 0)], &[f(1), f(0)], 5).unwrap();
    assert_eq!(grouped.eval(&only_value, &f(4)), Ok(f(2)));
    assert_eq!(grouped.eval(&only_value, &f(1)), Err(Error::DivisionByZero));
    let p = grouped.eval_on_domain(&only_polynomial).unwrap();
    // one times the cell, and nothing times its lift, over X - 1: X + 2
    assert_eq!(p.evaluate(&f(0)), f(2));
    assert_eq!(p.evaluate(&f(10)), f(12));
    assert_eq!(p.degree(), 1);
}

#[test]
fn grouped_value_is_the_value_of_the_domain_polynomial() {
    let constraints = [
        boundary(0, 0),
        Constraint {
            base: trace(1, 0).mul(trace(0, 1)).sub(trace(1, 0).mul(trace(1, 0))),
            denominator: x_minus_one().mul(x_minus_one()),
            numerator: Other::X.add(Other::Constant(f(1))),
        },
    ];
    let coefficients = [f(2), f(3), f(5), f(7)];
    let (grouped, _) = combine_constraints(&constraints, &coefficients, 4).unwrap();
    let p = grouped.eval_on_domain(&cell_polynomial).unwrap();
    for x in [0u64, 2, 3, 77, 1 << 40] {
        let x = f(x);
        let value = grouped.eval(&|i, j| cell_polynomial(i, j).evaluate(&x), &x);
        assert_eq!(value, Ok(p.evaluate(&x)));
    }
    // at the zero of the denominators there is no value
    let x = f(1);
    assert_eq!(
        grouped.eval(&|i, j| cell_polynomial(i, j).evaluate(&x), &x),
        Err(Error::DivisionByZero)
    );
}

#[test]
fn combination_has_the_target_degree() {
    // every cell is (X - 1)^2 (X + i + j + 2), of degree 3 = L - 1
    let cell = |i: usize, j: isize| -> DensePolynomial {
        let c = FieldElement::from_i64(i as i64 + j as i64 + 2);
        let square = DensePolynomial::new(&[f(1), FieldElement::from_i64(-2), f(1)]);
        square.mul(&DensePolynomial::new(&[c, f(1)]))
    };
    assert_eq!(cell(1, 0).degree(), 3);
    let constraints = [
        boundary(0, 0),
        Constraint {
            base: trace(1, 0).mul(trace(0, 1)),
            denominator: x_minus_one().mul(x_minus_one()),
            numerator: Other::X.add(Other::Constant(f(1))),
        },
    ];
    // the degrees are 2 and 5, and both are lifted to 7
    assert_eq!(constraints[0].degree(4), 2);
    assert_eq!(constraints[1].degree(4), 5);
    let coefficients = [f(2), f(3), f(5), f(7)];
    let (grouped, _) = combine_constraints(&constraints, &coefficients, 4).unwrap();
    let p = grouped.eval_on_domain(&cell).unwrap();
    assert_eq!(p.degree(), 7);
    // coefficients that cancel the leading terms leave a smaller degree
    let (lower, _) = combine_constraints(&constraints, &[f(2), f(0), f(5), f(0)], 4).unwrap();
    let q = lower.eval_on_domain(&cell).unwrap();
    assert_eq!(q.degree(), 5);
    // a cell of smaller degree gives a smaller degree, never a larger one
    let small = |_: usize, _: isize| -> DensePolynomial {
        DensePolynomial::new(&[FieldElement::from_i64(-1), f(1)])
    };
    let (alone, _) = combine_constraints(&[boundary(0, 0)], &[f(1), f(1)], 5).unwrap();
    assert!(alone.eval_on_domain(&small).unwrap().degree() <= 3);
}

#[test]
fn denominator_that_cancels_overshoots_the_target() {
    // (X - X) + 1 has the degree one by its shape and stands for the constant one
    let denominator = Other::X.sub(Other::X).add(Other::Constant(f(1)));
    assert_eq!(denominator.degree(), 1);
    assert_eq!(denominator.to_sparse().degree(), 0);
    let constraint = Constraint {
        base: trace(0, 0),
        denominator,
        numerator: Other::Constant(f(1)),
    };
    // by the shapes the degree is 4 + 0 - 1 = 3, which is the target
    assert_eq!(constraint.degree(5), 3);
    let (grouped, _) = combine_constraints(&[constraint], &[f(1), f(1)], 5).unwrap();
    // the cell is X^4 + 1, and nothing is divided away
    let cell = |_: usize, _: isize| -> DensePolynomial {
        DensePolynomial::new(&[f(1), f(0), f(0), f(0), f(1)])
    };
    let p = grouped.eval_on_domain(&cell).unwrap();
    assert_eq!(p.degree(), 4);
}
