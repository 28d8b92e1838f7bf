//! Degrees of the polynomials over the domain: the degree that the shape of
//! an expression gives is a bound on the degree of the polynomial that the
//! expression is.

use crate::constraint::{
    adjusted_term, bucket_polynomial, combined, group_insert, grouped_polynomial, key_before,
    plain_term, same_key, BucketView, ConstraintView,
};
use crate::domain::{cells_product, domain_value, increment_of, mul_threshold, SPARSE_THRESHOLD};
use crate::expression::{lemma_reify_canonical, max_nat, PolyExpr, TraceExpr};
use crate::fraction::{difference_factors, product_of, product_of_fractions, sum_of, FractionView};
use crate::modular::{
    inv_mod, lemma_modulus_positive, lemma_mul_mod_zero, lemma_small, modulus, mul_mod, neg_mod,
    sub_mod,
};
use crate::polynomial::dense::{
    coefficient_of, dense_add, dense_degree, dense_mul, dense_mul_sparse, dense_of, dense_scale,
    dense_shift, divide_from, exact_quotient, lemma_divide_from, quotient_len, reduce,
};
use crate::polynomial::sparse::{
    add_terms, bounded, canonical, degree_of, lemma_add_canonical, lemma_bounded_widen,
    lemma_degree_bounded, lemma_degree_bounds, lemma_monomial_canonical, lemma_mul_canonical,
    monomial_terms, mul_terms, Terms,
};
use crate::trace_multinomial::{
    accumulate, add_multinomials, index_lt, indices_lt, lemma_prune_members, merge_indices,
    minus_one, mul_multinomials, mul_row, mul_rows, multinomial_of, plain_fraction, prune, single,
    Indices, MonomialView,
};
use vstd::arithmetic::div_mod::lemma_mod_self_0;
use vstd::prelude::*;

verus! {

/// No power of `X` above `X^d` has a coefficient other than zero. With
/// `d == -1` every coefficient is zero.
pub open spec fn within(s: Seq<nat>, d: int) -> bool {
    forall|k: int| 0 <= k < s.len() && d < k ==> #[trigger] s[k] == 0
}

/// The bound on a product: the sum of the bounds, and none of the factors
/// may be zero.
pub open spec fn product_bound(da: int, db: int) -> int {
    if da < 0 || db < 0 {
        -1
    } else {
        da + db
    }
}

/// Coefficients within a bound have a degree within it.
pub proof fn lemma_within_degree(s: Seq<nat>, d: int)
    requires
        within(s, d),
        d >= 0,
    ensures
        dense_degree(s) <= d,
    decreases s.len(),
{
    if s.len() > 0 && s.last() == 0 {
        let front = s.drop_last();
        assert forall|k: int| 0 <= k < front.len() && d < k implies #[trigger] front[k] == 0 by {
            assert(front[k] == s[k]);
        }
        lemma_within_degree(front, d);
    } else if s.len() > 0 {
        assert(s[s.len() - 1] != 0);
    }
}

/// A sum stays within the bound of its summands.
pub proof fn lemma_within_add(a: Seq<nat>, b: Seq<nat>, d: int)
    requires
        within(a, d),
        within(b, d),
    ensures
        within(dense_add(a, b), d),
{
    lemma_modulus_positive();
    lemma_small(0);
    let sum = dense_add(a, b);
    assert forall|k: int| 0 <= k < sum.len() && d < k implies #[trigger] sum[k] == 0 by {
        if k < a.len() {
            assert(a[k] == 0);
        }
        if k < b.len() {
            assert(b[k] == 0);
        }
    }
}

/// A multiple stays within the bound, and the multiple by zero is zero.
pub proof fn lemma_within_scale(a: Seq<nat>, c: nat, d: int)
    requires
        within(a, d),
    ensures
        within(dense_scale(a, c), d),
        c == 0 ==> within(dense_scale(a, c), -1),
{
    let scaled = dense_scale(a, c);
    lemma_mul_mod_zero(c);
    assert forall|k: int| 0 <= k < scaled.len() && d < k implies #[trigger] scaled[k] == 0 by {
        assert(a[k] == 0);
    }
    if c == 0 {
        assert forall|k: int| 0 <= k < scaled.len() implies #[trigger] scaled[k] == 0 by {
            lemma_mul_mod_zero(a[k]);
        }
    }
}

/// The product with a power of `X` raises the bound by the exponent; zero
/// stays zero.
pub proof fn lemma_within_shift(a: Seq<nat>, e: nat, d: int)
    requires
        within(a, d),
        d >= -1,
    ensures
        within(dense_shift(a, e), product_bound(d, e as int)),
{
    let shifted = dense_shift(a, e);
    let bound = product_bound(d, e as int);
    assert forall|k: int| 0 <= k < shifted.len() && bound < k implies #[trigger] shifted[k]
        == 0 by {
        if k >= e {
            assert(shifted[k] == a[k - e]);
        }
    }
}

/// A bound that holds, holds when it is raised.
pub proof fn lemma_within_widen(s: Seq<nat>, d: int, wider: int)
    requires
        within(s, d),
        d <= wider,
    ensures
        within(s, wider),
{
}

/// The degree of a product is at most the sum of the degrees, and a product
/// with zero is zero.
pub proof fn lemma_within_mul(a: Seq<nat>, b: Seq<nat>, da: int, db: int)
    requires
        within(a, da),
        within(b, db),
        da >= -1,
        db >= -1,
    ensures
        within(dense_mul(a, b), product_bound(da, db)),
    decreases a.len(),
{
    if a.len() > 0 {
        let rest = a.skip(1);
        let below = if da < 0 {
            -1
        } else {
            da - 1
        };
        assert forall|k: int| 0 <= k < rest.len() && below < k implies #[trigger] rest[k] == 0 by {
            assert(rest[k] == a[k + 1]);
        }
        lemma_within_mul(rest, b, below, db);
        let inner = dense_mul(rest, b);
        lemma_within_shift(inner, 1, product_bound(below, db));
        lemma_within_scale(b, a[0], db);
        let bound = product_bound(da, db);
        let first = dense_scale(b, a[0]);
        let second = dense_shift(inner, 1);
        if da < 0 {
            assert(a[0] == 0);
        }
        lemma_within_widen(second, product_bound(product_bound(below, db), 1), bound);
        if da >= 0 {
            lemma_within_widen(first, db, bound);
        }
        lemma_within_add(first, second, bound);
    }
}

/// The degree of a product with a sparse polynomial is at most the sum of
/// the degrees.
pub proof fn lemma_within_mul_sparse(p: Seq<nat>, s: Terms, dp: int, ds: nat)
    requires
        within(p, dp),
        dp >= -1,
        bounded(s, 0, ds),
    ensures
        within(dense_mul_sparse(p, s), product_bound(dp, ds as int)),
    decreases s.len(),
{
    if s.len() > 0 {
        let rest = s.skip(1);
        assert(bounded(rest, 0, ds)) by {
            assert forall|i: int| 0 <= i < rest.len() implies 0 <= (#[trigger] rest[i]).1
                <= ds by {
                assert(rest[i] == s[i + 1]);
            }
        }
        lemma_within_mul_sparse(p, rest, dp, ds);
        let bound = product_bound(dp, ds as int);
        let scaled = dense_scale(p, s[0].0);
        lemma_within_scale(p, s[0].0, dp);
        lemma_within_shift(scaled, s[0].1, dp);
        let first = dense_shift(scaled, s[0].1);
        assert(s[0].1 <= ds);
        lemma_within_widen(first, product_bound(dp, s[0].1 as int), bound);
        lemma_within_add(first, dense_mul_sparse(p, rest), bound);
    }
}

/// The product by either way of multiplying has a degree of at most the sum
/// of the degrees.
pub proof fn lemma_within_mul_threshold(p: Seq<nat>, s: Terms, dp: int, ds: nat)
    requires
        within(p, dp),
        dp >= -1,
        bounded(s, 0, ds),
    ensures
        within(mul_threshold(p, s), product_bound(dp, ds as int)),
{
    if s.len() < SPARSE_THRESHOLD {
        lemma_within_mul_sparse(p, s, dp, ds);
    } else {
        let one = seq![1nat];
        assert(within(one, 0));
        lemma_within_mul_sparse(one, s, 0, ds);
        lemma_within_mul(p, dense_of(s), dp, ds as int);
    }
}

/// Taking a multiple of the divisor away leaves the coefficients within the
/// bound, where the multiple is within it or is zero.
proof fn lemma_within_reduce(r: Seq<nat>, d: Terms, shift: nat, t: nat, high: nat, bound: int)
    requires
        bounded(d, 0, high),
        shift + high < r.len(),
        within(r, bound),
        t == 0 || shift + high <= bound,
    ensures
        within(reduce(r, d, shift, t), bound),
        reduce(r, d, shift, t).len() == r.len(),
    decreases d.len(),
{
    if d.len() > 0 {
        let at = d[0].1 + shift;
        let taken = mul_mod(t, d[0].0);
        let next = r.update(at as int, sub_mod(coefficient_of(r, at as int), taken));
        let rest = d.skip(1);
        assert(d[0].1 <= high);
        assert(bounded(rest, 0, high)) by {
            assert forall|i: int| 0 <= i < rest.len() implies 0 <= (#[trigger] rest[i]).1
                <= high by {
                assert(rest[i] == d[i + 1]);
            }
        }
        assert(within(next, bound)) by {
            assert forall|k: int| 0 <= k < next.len() && bound < k implies #[trigger] next[k]
                == 0 by {
                if k == at {
                    assert(t == 0);
                    assert(r[k] == 0);
                    lemma_mul_mod_zero(d[0].0);
                    lemma_modulus_positive();
                    lemma_small(0);
                    lemma_mod_self_0(modulus() as int);
                    assert(neg_mod(0) == 0);
                } else {
                    assert(next[k] == r[k]);
                }
            }
        }
        lemma_within_reduce(next, rest, shift, t, high, bound);
    }
}

/// Through a long division what is left stays within the bound of the
/// dividend, and the quotient has no coefficient above the bound less the
/// degree of the divisor.
proof fn lemma_within_divide_from(p: Seq<nat>, d: Terms, j: nat, bound: int)
    requires
        canonical(d),
        within(p, bound),
    ensures
        within(divide_from(p, d, j).0, bound),
        divide_from(p, d, j).0.len() == p.len(),
        divide_from(p, d, j).1.len() == quotient_len(p, d),
        forall|k: int|
            0 <= k < quotient_len(p, d) && bound < k + degree_of(d) ==> #[trigger] divide_from(
                p,
                d,
                j,
            ).1[k] == 0,
    decreases p.len() - j,
{
    let e = degree_of(d);
    lemma_divide_from(p, d, j, 0);
    if j + e < p.len() {
        lemma_within_divide_from(p, d, j + 1, bound);
        lemma_divide_from(p, d, j + 1, 0);
        let (r, q) = divide_from(p, d, j + 1);
        let t = mul_mod(coefficient_of(r, (j + e) as int), inv_mod(d.last().0));
        lemma_degree_bounds(d);
        if bound < j + e {
            assert(r[(j + e) as int] == 0);
            lemma_mul_mod_zero(inv_mod(d.last().0));
            assert(t == 0);
        }
        lemma_within_reduce(r, d, j, t, e, bound);
        let next = q.update(j as int, t);
        assert(divide_from(p, d, j).1 == next);
        assert forall|k: int|
            0 <= k < quotient_len(p, d) && bound < k + e implies #[trigger] next[k] == 0 by {
            if k != j {
                assert(next[k] == q[k]);
            }
        }
    }
}

/// An exact quotient has at most the degree of the dividend less the degree
/// of the divisor.
pub proof fn lemma_within_quotient(p: Seq<nat>, d: Terms, bound: int)
    requires
        canonical(d),
        within(p, bound),
        exact_quotient(p, d).is_some(),
    ensures
        within(exact_quotient(p, d).unwrap(), bound - degree_of(d)),
{
    lemma_within_divide_from(p, d, 0, bound);
    let q = exact_quotient(p, d).unwrap();
    assert(q == divide_from(p, d, 0).1);
    assert forall|k: int| 0 <= k < q.len() && bound - degree_of(d) < k implies #[trigger] q[k]
        == 0 by {
        assert(bound < k + degree_of(d));
    }
}

/// One monomial weighs at most `d`: its coefficient is a polynomial in
/// canonical form over the empty product, and its cells, each counted as
/// `span`, and the degree of that polynomial come to `d` at most.
pub open spec fn weighs(key: Indices, c: FractionView, span: nat, d: int) -> bool {
    &&& c.denominator.len() == 0
    &&& c.numerator.trace_free()
    &&& canonical(c.numerator.reify())
    &&& key.len() * span + degree_of(c.numerator.reify()) <= d
}

/// Every monomial weighs at most `d`.
pub open spec fn weighed(m: Seq<MonomialView>, span: nat, d: int) -> bool {
    forall|i: int|
        0 <= i < m.len() ==> weighs((#[trigger] m[i]).indices, m[i].coefficient, span, d)
}

proof fn lemma_weighs_sum(key: Indices, a: FractionView, b: FractionView, span: nat, d: int)
    requires
        weighs(key, a, span, d),
        weighs(key, b, span, d),
    ensures
        weighs(key, sum_of(a, b), span, d),
{
    let none = Seq::<Terms>::empty();
    assert(difference_factors(a.denominator, b.denominator) =~= none);
    assert(difference_factors(b.denominator, a.denominator) =~= none);
    let one = product_of(none);
    lemma_monomial_canonical(1, 0);
    assert(one == monomial_terms(1, 0));
    let ra = a.numerator.reify();
    let rb = b.numerator.reify();
    let unit = TraceExpr::Poly(PolyExpr::PeriodicColumn(one));
    let left = TraceExpr::Mul(Box::new(a.numerator), Box::new(unit));
    let right = TraceExpr::Mul(Box::new(b.numerator), Box::new(unit));
    let s = sum_of(a, b);
    assert(s.numerator == TraceExpr::Add(Box::new(left), Box::new(right)));
    assert(unit.reify() == one);
    assert(left.reify() == mul_terms(ra, one));
    assert(right.reify() == mul_terms(rb, one));
    assert(s.numerator.reify() == add_terms(mul_terms(ra, one), mul_terms(rb, one)));
    assert(unit.trace_free());
    assert(left.trace_free() && right.trace_free());
    assert(s.numerator.trace_free());
    lemma_mul_canonical(ra, one);
    lemma_mul_canonical(rb, one);
    let high = max_nat(degree_of(ra), degree_of(rb));
    lemma_bounded_widen(mul_terms(ra, one), 0, degree_of(ra) + degree_of(one), 0, high);
    lemma_bounded_widen(mul_terms(rb, one), 0, degree_of(rb) + degree_of(one), 0, high);
    lemma_add_canonical(mul_terms(ra, one), mul_terms(rb, one), 0, high);
    lemma_degree_bounded(s.numerator.reify(), 0, high);
    assert(s.denominator.len() == 0);
}

proof fn lemma_merge_len(a: Indices, b: Indices)
    ensures
        merge_indices(a, b).len() == a.len() + b.len(),
    decreases a.len() + b.len(),
{
    if a.len() == 0 || b.len() == 0 {
    } else if index_lt(b[0], a[0]) {
        lemma_merge_len(a, b.skip(1));
    } else {
        lemma_merge_len(a.skip(1), b);
    }
}

proof fn lemma_weighs_product(
    ka: Indices,
    a: FractionView,
    kb: Indices,
    b: FractionView,
    span: nat,
    da: int,
    db: int,
)
    requires
        weighs(ka, a, span, da),
        weighs(kb, b, span, db),
    ensures
        weighs(merge_indices(ka, kb), product_of_fractions(a, b), span, da + db),
{
    lemma_merge_len(ka, kb);
    let p = product_of_fractions(a, b);
    assert(p.denominator.len() == 0);
    lemma_mul_canonical(a.numerator.reify(), b.numerator.reify());
    assert(p.numerator.reify() == mul_terms(a.numerator.reify(), b.numerator.reify()));
    assert((ka.len() + kb.len()) * span == ka.len() * span + kb.len() * span)
        by (nonlinear_arith);
}

proof fn lemma_weighed_skip(m: Seq<MonomialView>, span: nat, d: int)
    requires
        weighed(m, span, d),
        m.len() > 0,
    ensures
        weighed(m.skip(1), span, d),
        weighs(m[0].indices, m[0].coefficient, span, d),
{
    let rest = m.skip(1);
    assert forall|i: int| 0 <= i < rest.len() implies weighs(
        (#[trigger] rest[i]).indices,
        rest[i].coefficient,
        span,
        d,
    ) by {
        assert(rest[i] == m[i + 1]);
    }
}

proof fn lemma_weighed_widen(m: Seq<MonomialView>, span: nat, d: int, wider: int)
    requires
        weighed(m, span, d),
        d <= wider,
    ensures
        weighed(m, span, wider),
{
    assert forall|i: int| 0 <= i < m.len() implies weighs(
        (#[trigger] m[i]).indices,
        m[i].coefficient,
        span,
        wider,
    ) by {
        assert(weighs(m[i].indices, m[i].coefficient, span, d));
    }
}

proof fn lemma_weighed_accumulate(
    m: Seq<MonomialView>,
    key: Indices,
    c: FractionView,
    span: nat,
    d: int,
)
    requires
        weighed(m, span, d),
        weighs(key, c, span, d),
    ensures
        weighed(accumulate(m, key, c), span, d),
    decreases m.len(),
{
    let r = accumulate(m, key, c);
    if m.len() == 0 {
    } else if m[0].indices == key {
        lemma_weighs_sum(key, m[0].coefficient, c, span, d);
        assert forall|i: int| 0 <= i < r.len() implies weighs(
            (#[trigger] r[i]).indices,
            r[i].coefficient,
            span,
            d,
        ) by {
            if i > 0 {
                assert(r[i] == m[i]);
            }
        }
    } else if indices_lt(key, m[0].indices) {
        assert forall|i: int| 0 <= i < r.len() implies weighs(
            (#[trigger] r[i]).indices,
            r[i].coefficient,
            span,
            d,
        ) by {
            if i > 0 {
                assert(r[i] == m[i - 1]);
            }
        }
    } else {
        lemma_weighed_skip(m, span, d);
        lemma_weighed_accumulate(m.skip(1), key, c, span, d);
        let tail = accumulate(m.skip(1), key, c);
        assert forall|i: int| 0 <= i < r.len() implies weighs(
            (#[trigger] r[i]).indices,
            r[i].coefficient,
            span,
            d,
        ) by {
            if i > 0 {
                assert(r[i] == tail[i - 1]);
            } else {
                assert(r[0] == m[0]);
            }
        }
    }
}

proof fn lemma_weighed_add(a: Seq<MonomialView>, b: Seq<MonomialView>, span: nat, d: int)
    requires
        weighed(a, span, d),
        weighed(b, span, d),
    ensures
        weighed(add_multinomials(a, b), span, d),
    decreases b.len(),
{
    if b.len() > 0 {
        lemma_weighed_skip(b, span, d);
        lemma_weighed_accumulate(a, b[0].indices, b[0].coefficient, span, d);
        lemma_weighed_add(accumulate(a, b[0].indices, b[0].coefficient), b.skip(1), span, d);
    }
}

proof fn lemma_weighed_row(
    acc: Seq<MonomialView>,
    key: Indices,
    c: FractionView,
    b: Seq<MonomialView>,
    span: nat,
    da: int,
    db: int,
)
    requires
        weighed(acc, span, da + db),
        weighs(key, c, span, da),
        weighed(b, span, db),
    ensures
        weighed(mul_row(acc, key, c, b), span, da + db),
    decreases b.len(),
{
    if b.len() > 0 {
        lemma_weighed_skip(b, span, db);
        let k = merge_indices(key, b[0].indices);
        let p = product_of_fractions(c, b[0].coefficient);
        lemma_weighs_product(key, c, b[0].indices, b[0].coefficient, span, da, db);
        lemma_weighed_accumulate(acc, k, p, span, da + db);
        lemma_weighed_row(accumulate(acc, k, p), key, c, b.skip(1), span, da, db);
    }
}

proof fn lemma_weighed_rows(
    acc: Seq<MonomialView>,
    a: Seq<MonomialView>,
    b: Seq<MonomialView>,
    span: nat,
    da: int,
    db: int,
)
    requires
        weighed(acc, span, da + db),
        weighed(a, span, da),
        weighed(b, span, db),
    ensures
        weighed(mul_rows(acc, a, b), span, da + db),
    decreases a.len(),
{
    if a.len() > 0 {
        lemma_weighed_skip(a, span, da);
        lemma_weighed_row(acc, a[0].indices, a[0].coefficient, b, span, da, db);
        lemma_weighed_rows(
            mul_row(acc, a[0].indices, a[0].coefficient, b),
            a.skip(1),
            b,
            span,
            da,
            db,
        );
    }
}

proof fn lemma_weighed_prune(m: Seq<MonomialView>, span: nat, d: int)
    requires
        weighed(m, span, d),
    ensures
        weighed(prune(m), span, d),
{
    let pruned = prune(m);
    lemma_prune_members(m);
    assert forall|j: int| 0 <= j < pruned.len() implies weighs(
        (#[trigger] pruned[j]).indices,
        pruned[j].coefficient,
        span,
        d,
    ) by {
        assert(m.contains(pruned[j]));
        let i = choose|i: int| 0 <= i < m.len() && m[i] == pruned[j];
        assert(weighs(m[i].indices, m[i].coefficient, span, d));
    }
}

/// Every monomial of the multinomial of an expression weighs at most the
/// degree of the expression: its cells, each counted as the degree of a
/// trace column, and the degree of its coefficient.
pub proof fn lemma_multinomial_weighed(e: TraceExpr, trace_length: nat)
    requires
        e.well_formed(),
        trace_length >= 1,
    ensures
        weighed(multinomial_of(e), (trace_length - 1) as nat, e.degree(trace_length) as int),
    decreases e,
{
    let span = (trace_length - 1) as nat;
    let d = e.degree(trace_length) as int;
    let none = Seq::<MonomialView>::empty();
    lemma_modulus_positive();
    match e {
        TraceExpr::Trace(i, j) => {
            lemma_monomial_canonical(1, 0);
            let key = seq![(i, j)];
            assert(key.len() * span == span) by (nonlinear_arith)
                requires
                    key.len() == 1,
            ;
        },
        TraceExpr::Poly(p) => {
            lemma_reify_canonical(p);
            let key = Seq::<(nat, int)>::empty();
            assert(key.len() * span == 0) by (nonlinear_arith)
                requires
                    key.len() == 0,
            ;
            let one = single(key, plain_fraction(p));
            assert(weighed(one, span, d));
            lemma_weighed_prune(one, span, d);
        },
        TraceExpr::Neg(a) => {
            lemma_multinomial_weighed(*a, trace_length);
            let sign = (modulus() - 1) as nat;
            lemma_monomial_canonical(sign, 0);
            let key = Seq::<(nat, int)>::empty();
            assert(key.len() * span == 0) by (nonlinear_arith)
                requires
                    key.len() == 0,
            ;
            assert(weighed(minus_one(), span, 0));
            lemma_weighed_rows(none, minus_one(), multinomial_of(*a), span, 0, d);
            lemma_weighed_prune(mul_multinomials(minus_one(), multinomial_of(*a)), span, d);
        },
        TraceExpr::Add(a, b) => {
            lemma_multinomial_weighed(*a, trace_length);
            lemma_multinomial_weighed(*b, trace_length);
            lemma_weighed_widen(multinomial_of(*a), span, a.degree(trace_length) as int, d);
            lemma_weighed_widen(multinomial_of(*b), span, b.degree(trace_length) as int, d);
            lemma_weighed_add(multinomial_of(*a), multinomial_of(*b), span, d);
            lemma_weighed_prune(add_multinomials(multinomial_of(*a), multinomial_of(*b)), span, d);
        },
        TraceExpr::Mul(a, b) => {
            lemma_multinomial_weighed(*a, trace_length);
            lemma_multinomial_weighed(*b, trace_length);
            lemma_weighed_rows(
                none,
                multinomial_of(*a),
                multinomial_of(*b),
                span,
                a.degree(trace_length) as int,
                b.degree(trace_length) as int,
            );
            lemma_weighed_prune(mul_multinomials(multinomial_of(*a), multinomial_of(*b)), span, d);
        },
    }
}

/// Every trace cell is a polynomial of degree `span` at most.
pub open spec fn cells_within(oracle: spec_fn(nat, int) -> Seq<nat>, span: nat) -> bool {
    forall|i: nat, j: int| within(#[trigger] oracle(i, j), span as int)
}

/// The product of cells has at most the degree of one cell times their
/// number.
pub proof fn lemma_cells_within(indices: Indices, oracle: spec_fn(nat, int) -> Seq<nat>, span: nat)
    requires
        cells_within(oracle, span),
    ensures
        within(cells_product(indices, oracle), (indices.len() * span) as int),
    decreases indices.len(),
{
    if indices.len() == 0 {
        assert(indices.len() * span == 0) by (nonlinear_arith)
            requires
                indices.len() == 0,
        ;
    } else {
        let front = indices.drop_last();
        lemma_cells_within(front, oracle, span);
        let last = oracle(indices.last().0, indices.last().1);
        assert(within(last, span as int));
        lemma_within_mul(
            cells_product(front, oracle),
            last,
            (front.len() * span) as int,
            span as int,
        );
        assert(front.len() * span + span == indices.len() * span) by (nonlinear_arith)
            requires
                front.len() + 1 == indices.len(),
        ;
    }
}

/// A weighed multinomial is over the domain a polynomial of at most its
/// weight in degree.
pub proof fn lemma_weighed_within(
    m: Seq<MonomialView>,
    oracle: spec_fn(nat, int) -> Seq<nat>,
    span: nat,
    d: int,
)
    requires
        weighed(m, span, d),
        cells_within(oracle, span),
        d >= -1,
    ensures
        domain_value(m, oracle).is_some(),
        within(domain_value(m, oracle).unwrap(), d),
    decreases m.len(),
{
    if m.len() > 0 {
        let front = m.drop_last();
        let last = m.last();
        assert(weighed(front, span, d)) by {
            assert forall|i: int| 0 <= i < front.len() implies weighs(
                (#[trigger] front[i]).indices,
                front[i].coefficient,
                span,
                d,
            ) by {
                assert(front[i] == m[i]);
            }
        }
        lemma_weighed_within(front, oracle, span, d);
        assert(last == m[m.len() - 1]);
        assert(weighs(last.indices, last.coefficient, span, d));
        let cells = cells_product(last.indices, oracle);
        let numerator = last.coefficient.numerator.reify();
        lemma_cells_within(last.indices, oracle, span);
        lemma_degree_bounds(numerator);
        lemma_within_mul_threshold(
            cells,
            numerator,
            (last.indices.len() * span) as int,
            degree_of(numerator),
        );
        let product = mul_threshold(cells, numerator);
        assert(last.coefficient.denominator =~= Seq::<Terms>::empty());
        assert(increment_of(last, oracle) == Some(product));
        let weight = (last.indices.len() * span + degree_of(numerator)) as int;
        lemma_within_widen(product, weight, d);
        lemma_within_add(domain_value(front, oracle).unwrap(), product, d);
    }
}

/// The degree that the shape of an expression gives is a bound on the
/// degree of the polynomial that the expression is over the domain, where
/// each trace cell is a polynomial of degree `trace_length - 1` at most.
pub proof fn lemma_domain_degree(
    e: TraceExpr,
    oracle: spec_fn(nat, int) -> Seq<nat>,
    trace_length: nat,
)
    requires
        e.well_formed(),
        trace_length >= 1,
        cells_within(oracle, (trace_length - 1) as nat),
    ensures
        domain_value(multinomial_of(e), oracle).is_some(),
        within(domain_value(multinomial_of(e), oracle).unwrap(), e.degree(trace_length) as int),
        dense_degree(domain_value(multinomial_of(e), oracle).unwrap()) <= e.degree(trace_length),
{
    let span = (trace_length - 1) as nat;
    let d = e.degree(trace_length) as int;
    lemma_multinomial_weighed(e, trace_length);
    lemma_weighed_within(multinomial_of(e), oracle, span, d);
    lemma_within_degree(domain_value(multinomial_of(e), oracle).unwrap(), d);
}

/// The bucket is within the target: its parts are in canonical form, and
/// the degree of its expression plus that of its numerator is at most the
/// target plus the degree of its denominator.
pub open spec fn bucket_bounded(b: BucketView, trace_length: nat, target: int) -> bool {
    &&& b.value.well_formed()
    &&& canonical(b.numerator.reify())
    &&& canonical(b.denominator.reify())
    &&& b.value.degree(trace_length) + degree_of(b.numerator.reify()) <= target + degree_of(
        b.denominator.reify(),
    )
}

/// Every bucket is within the target.
pub open spec fn buckets_bounded(g: Seq<BucketView>, trace_length: nat, target: int) -> bool {
    forall|k: int| 0 <= k < g.len() ==> bucket_bounded(#[trigger] g[k], trace_length, target)
}

/// The constraint is within the target: its parts are in canonical form,
/// the degree of its denominator is that of the polynomial it stands for,
/// and its degree is at most the target.
pub open spec fn constraint_bounded(c: ConstraintView, trace_length: nat, target: int) -> bool {
    &&& c.base.well_formed()
    &&& c.numerator.well_formed()
    &&& c.denominator.well_formed()
    &&& degree_of(c.denominator.reify()) == c.denominator.degree()
    &&& c.degree(trace_length) <= target
}

/// The first `count` constraints are within the target.
pub open spec fn constraints_bounded(
    constraints: Seq<ConstraintView>,
    trace_length: nat,
    target: int,
    count: nat,
) -> bool {
    forall|i: int|
        0 <= i < count ==> constraint_bounded(#[trigger] constraints[i], trace_length, target)
}

/// Over the domain a bucket within the target is a polynomial of the
/// target degree at most.
pub proof fn lemma_bucket_within(
    b: BucketView,
    oracle: spec_fn(nat, int) -> Seq<nat>,
    trace_length: nat,
    target: int,
)
    requires
        bucket_bounded(b, trace_length, target),
        trace_length >= 1,
        cells_within(oracle, (trace_length - 1) as nat),
        bucket_polynomial(b, oracle).is_some(),
    ensures
        within(bucket_polynomial(b, oracle).unwrap(), target),
{
    lemma_domain_degree(b.value, oracle, trace_length);
    let base = domain_value(multinomial_of(b.value), oracle).unwrap();
    let numerator = b.numerator.reify();
    let denominator = b.denominator.reify();
    let d = b.value.degree(trace_length) as int;
    lemma_degree_bounds(numerator);
    lemma_within_mul_threshold(base, numerator, d, degree_of(numerator));
    let product = mul_threshold(base, numerator);
    lemma_within_quotient(product, denominator, d + degree_of(numerator));
    let quotient = exact_quotient(product, denominator).unwrap();
    lemma_within_widen(quotient, d + degree_of(numerator) - degree_of(denominator), target);
}

/// Over the domain buckets within the target are a polynomial of the target
/// degree at most.
pub proof fn lemma_grouped_within(
    g: Seq<BucketView>,
    oracle: spec_fn(nat, int) -> Seq<nat>,
    trace_length: nat,
    target: int,
)
    requires
        buckets_bounded(g, trace_length, target),
        trace_length >= 1,
        cells_within(oracle, (trace_length - 1) as nat),
        grouped_polynomial(g, oracle).is_some(),
    ensures
        within(grouped_polynomial(g, oracle).unwrap(), target),
    decreases g.len(),
{
    if g.len() > 0 {
        let front = g.drop_last();
        assert(buckets_bounded(front, trace_length, target)) by {
            assert forall|k: int| 0 <= k < front.len() implies bucket_bounded(
                #[trigger] front[k],
                trace_length,
                target,
            ) by {
                assert(front[k] == g[k]);
            }
        }
        assert(g.last() == g[g.len() - 1]);
        lemma_grouped_within(front, oracle, trace_length, target);
        lemma_bucket_within(g.last(), oracle, trace_length, target);
        lemma_within_add(
            grouped_polynomial(front, oracle).unwrap(),
            bucket_polynomial(g.last(), oracle).unwrap(),
            target,
        );
    }
}

proof fn lemma_group_insert_bounded(
    g: Seq<BucketView>,
    numerator: PolyExpr,
    denominator: PolyExpr,
    value: TraceExpr,
    trace_length: nat,
    target: int,
)
    requires
        buckets_bounded(g, trace_length, target),
        bucket_bounded(BucketView { numerator, denominator, value }, trace_length, target),
    ensures
        buckets_bounded(group_insert(g, numerator, denominator, value), trace_length, target),
    decreases g.len(),
{
    let r = group_insert(g, numerator, denominator, value);
    if g.len() == 0 {
    } else if same_key(g[0], numerator, denominator) {
        assert(bucket_bounded(g[0], trace_length, target));
        assert forall|k: int| 0 <= k < r.len() implies bucket_bounded(
            #[trigger] r[k],
            trace_length,
            target,
        ) by {
            if k > 0 {
                assert(r[k] == g[k]);
            } else {
                assert(r[0].value == TraceExpr::Add(Box::new(g[0].value), Box::new(value)));
                assert(r[0].numerator == g[0].numerator);
                assert(r[0].denominator == g[0].denominator);
            }
        }
    } else if key_before(numerator, denominator, g[0]) {
        assert forall|k: int| 0 <= k < r.len() implies bucket_bounded(
            #[trigger] r[k],
            trace_length,
            target,
        ) by {
            if k > 0 {
                assert(r[k] == g[k - 1]);
            }
        }
    } else {
        let rest = g.skip(1);
        assert(buckets_bounded(rest, trace_length, target)) by {
            assert forall|k: int| 0 <= k < rest.len() implies bucket_bounded(
                #[trigger] rest[k],
                trace_length,
                target,
            ) by {
                assert(rest[k] == g[k + 1]);
            }
        }
        lemma_group_insert_bounded(rest, numerator, denominator, value, trace_length, target);
        let tail = group_insert(rest, numerator, denominator, value);
        assert forall|k: int| 0 <= k < r.len() implies bucket_bounded(
            #[trigger] r[k],
            trace_length,
            target,
        ) by {
            if k > 0 {
                assert(r[k] == tail[k - 1]);
            } else {
                assert(r[0] == g[0]);
            }
        }
    }
}

/// The buckets of a combination of constraints within the target are
/// within the target.
pub proof fn lemma_combined_bounded(
    constraints: Seq<ConstraintView>,
    coefficients: Seq<nat>,
    trace_length: nat,
    target: int,
    count: nat,
)
    requires
        count <= constraints.len(),
        constraints_bounded(constraints, trace_length, target, count),
    ensures
        buckets_bounded(
            combined(constraints, coefficients, trace_length, target, count),
            trace_length,
            target,
        ),
    decreases count,
{
    if count > 0 {
        let i = (count - 1) as int;
        let c = constraints[i];
        assert(constraint_bounded(c, trace_length, target));
        let adjustment = (target - c.degree(trace_length)) as nat;
        let before = combined(constraints, coefficients, trace_length, target, i as nat);
        lemma_combined_bounded(constraints, coefficients, trace_length, target, i as nat);
        let scale = TraceExpr::Poly(PolyExpr::Constant(coefficients[2 * i]));
        let other_scale = TraceExpr::Poly(PolyExpr::Constant(coefficients[2 * i + 1]));
        let power = PolyExpr::Pow(Box::new(PolyExpr::X), adjustment);
        let lift = TraceExpr::Poly(power);
        let first = plain_term(coefficients[2 * i], c.base);
        let inner = plain_term(coefficients[2 * i + 1], c.base);
        let second = adjusted_term(coefficients[2 * i + 1], c.base, adjustment);
        lemma_reify_canonical(c.numerator);
        lemma_reify_canonical(c.denominator);
        let base = c.base.degree(trace_length);
        assert(scale.degree(trace_length) == 0);
        assert(other_scale.degree(trace_length) == 0);
        assert(first.degree(trace_length) == base);
        assert(inner.degree(trace_length) == base);
        assert(PolyExpr::X.degree() == 1);
        assert(power.degree() == adjustment * 1);
        assert(adjustment * 1 == adjustment) by (nonlinear_arith);
        assert(lift.degree(trace_length) == adjustment);
        assert(second == TraceExpr::Mul(Box::new(inner), Box::new(lift)));
        assert(second.degree(trace_length) == base + adjustment);
        assert(scale.well_formed() && other_scale.well_formed());
        assert(PolyExpr::X.well_formed());
        assert(power.well_formed());
        assert(lift.well_formed());
        assert(first.well_formed());
        assert(inner.well_formed());
        assert(second.well_formed());
        lemma_group_insert_bounded(
            before,
            c.numerator,
            c.denominator,
            first,
            trace_length,
            target,
        );
        lemma_group_insert_bounded(
            group_insert(before, c.numerator, c.denominator, first),
            c.numerator,
            c.denominator,
            second,
            trace_length,
            target,
        );
    }
}

/// The combination has the degree that it lifts its constraints to, at
/// most: where each trace cell is a polynomial of degree `trace_length - 1`
/// at most and no constraint has a degree above the target, the polynomial
/// of the combined constraints over the domain has the target degree at
/// most. The denominators are taken to have the degree of their shape.
pub proof fn lemma_combination_degree(
    constraints: Seq<ConstraintView>,
    coefficients: Seq<nat>,
    trace_length: nat,
    target: int,
    count: nat,
    oracle: spec_fn(nat, int) -> Seq<nat>,
)
    requires
        trace_length >= 1,
        target >= 0,
        count <= constraints.len(),
        constraints_bounded(constraints, trace_length, target, count),
        cells_within(oracle, (trace_length - 1) as nat),
        grouped_polynomial(
            combined(constraints, coefficients, trace_length, target, count),
            oracle,
        ).is_some(),
    ensures
        dense_degree(
            grouped_polynomial(
                combined(constraints, coefficients, trace_length, target, count),
                oracle,
            ).unwrap(),
        ) <= target,
{
    let g = combined(constraints, coefficients, trace_length, target, count);
    lemma_combined_bounded(constraints, coefficients, trace_length, target, count);
    lemma_grouped_within(g, oracle, trace_length, target);
    lemma_within_degree(grouped_polynomial(g, oracle).unwrap(), target);
}

} // verus!
