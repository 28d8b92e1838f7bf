//! Polynomials held as the vector of their coefficients.
//!
//! The model of a dense polynomial is the sequence of its coefficients, the
//! constant one first. Zeros at the end are allowed: the arithmetic does not
//! look for them.

use crate::field::FieldElement;
use crate::modular::{
    add_mod, inv_mod, lemma_add_mod_assoc, lemma_add_mod_comm, lemma_add_mod_swap,
    lemma_add_mod_zero, lemma_add_neg_cancel, lemma_mod_absorb, lemma_modulus_positive,
    lemma_mul_mod_assoc, lemma_mul_mod_comm, lemma_mul_mod_distributes, lemma_mul_mod_one,
    lemma_mul_mod_sub, lemma_mul_mod_swap, lemma_mul_mod_zero, lemma_pow_mod_adds, lemma_reduced,
    lemma_small, modulus, mul_mod, pow_mod, sub_mod,
};
use crate::polynomial::sparse::{
    bounded, canonical, degree_of, eval_terms, lemma_degree_bounds, pairs_view, sum_of_pairs,
    SparsePolynomial, Terms,
};
use vstd::prelude::*;

verus! {

/// The coefficient of `X^k`; zero past the end.
pub open spec fn coefficient_of(s: Seq<nat>, k: int) -> nat {
    if 0 <= k < s.len() {
        s[k]
    } else {
        0
    }
}

/// The value at `x` of the polynomial with the given coefficients.
pub open spec fn eval_dense(s: Seq<nat>, x: nat) -> nat
    decreases s.len(),
{
    if s.len() == 0 {
        0
    } else {
        add_mod(s[0], mul_mod(x, eval_dense(s.skip(1), x)))
    }
}

/// The largest exponent with a non-zero coefficient; zero where there is
/// none.
pub open spec fn dense_degree(s: Seq<nat>) -> nat
    decreases s.len(),
{
    if s.len() == 0 {
        0
    } else if s.last() != 0 {
        (s.len() - 1) as nat
    } else {
        dense_degree(s.drop_last())
    }
}

/// The coefficients of a sum, as many as the longer summand has.
pub open spec fn dense_add(a: Seq<nat>, b: Seq<nat>) -> Seq<nat> {
    Seq::new(
        if a.len() < b.len() {
            b.len()
        } else {
            a.len()
        },
        |k: int| add_mod(coefficient_of(a, k), coefficient_of(b, k)),
    )
}

/// The coefficients of the product with the constant `c`.
pub open spec fn dense_scale(a: Seq<nat>, c: nat) -> Seq<nat> {
    Seq::new(a.len(), |k: int| mul_mod(c, a[k]))
}

/// The coefficients of the product with `X^e`.
pub open spec fn dense_shift(a: Seq<nat>, e: nat) -> Seq<nat> {
    Seq::new(e, |k: int| 0nat) + a
}

/// The coefficients of a product: the sum of `b` multiplied by each term of
/// `a`.
pub open spec fn dense_mul(a: Seq<nat>, b: Seq<nat>) -> Seq<nat>
    decreases a.len(),
{
    if a.len() == 0 {
        Seq::empty()
    } else {
        dense_add(dense_scale(b, a[0]), dense_shift(dense_mul(a.skip(1), b), 1))
    }
}

/// The coefficients of the product with a sparse polynomial: the sum of `p`
/// multiplied by each of its terms.
pub open spec fn dense_mul_sparse(p: Seq<nat>, s: Terms) -> Seq<nat>
    decreases s.len(),
{
    if s.len() == 0 {
        Seq::empty()
    } else {
        dense_add(
            dense_shift(dense_scale(p, s[0].0), s[0].1),
            dense_mul_sparse(p, s.skip(1)),
        )
    }
}

/// The coefficients of a sparse polynomial.
pub open spec fn dense_of(s: Terms) -> Seq<nat> {
    dense_mul_sparse(seq![1nat], s)
}

/// `r` less `t * X^shift` times the polynomial with the terms `d`.
pub open spec fn reduce(r: Seq<nat>, d: Terms, shift: nat, t: nat) -> Seq<nat>
    decreases d.len(),
{
    if d.len() == 0 {
        r
    } else {
        let at = d[0].1 + shift;
        reduce(
            r.update(at as int, sub_mod(coefficient_of(r, at as int), mul_mod(t, d[0].0))),
            d.skip(1),
            shift,
            t,
        )
    }
}

/// The number of coefficients that the quotient of `p` by `d` has.
pub open spec fn quotient_len(p: Seq<nat>, d: Terms) -> nat {
    if p.len() > degree_of(d) {
        (p.len() - degree_of(d)) as nat
    } else {
        0
    }
}

/// The state of a long division of `p` by `d` once the coefficients of the
/// quotient from `X^j` upwards are found: what is left of `p`, and the
/// quotient so far.
pub open spec fn divide_from(p: Seq<nat>, d: Terms, j: nat) -> (Seq<nat>, Seq<nat>)
    decreases p.len() - j,
{
    let e = degree_of(d);
    if j + e >= p.len() {
        (p, Seq::new(quotient_len(p, d), |k: int| 0nat))
    } else {
        let (r, q) = divide_from(p, d, j + 1);
        let t = mul_mod(coefficient_of(r, (j + e) as int), inv_mod(d.last().0));
        (reduce(r, d, j, t), q.update(j as int, t))
    }
}

/// The remainder and the quotient of the long division of `p` by `d`.
pub open spec fn divide(p: Seq<nat>, d: Terms) -> (Seq<nat>, Seq<nat>) {
    divide_from(p, d, 0)
}

/// Every coefficient is zero.
pub open spec fn all_zero(s: Seq<nat>) -> bool {
    forall|k: int| 0 <= k < s.len() ==> s[k] == 0
}

/// The quotient of `p` by `d` where the division leaves no remainder.
pub open spec fn exact_quotient(p: Seq<nat>, d: Terms) -> Option<Seq<nat>> {
    if d.len() > 0 && all_zero(divide(p, d).0) {
        Some(divide(p, d).1)
    } else {
        None
    }
}

/// The coefficients after the first; none where there is none.
pub open spec fn tail_of(s: Seq<nat>) -> Seq<nat> {
    if s.len() == 0 {
        s
    } else {
        s.skip(1)
    }
}

/// Every value of a polynomial is a residue.
pub proof fn lemma_eval_dense_reduced(s: Seq<nat>, x: nat)
    ensures
        eval_dense(s, x) < modulus(),
{
    lemma_modulus_positive();
    if s.len() > 0 {
        lemma_reduced(s[0], mul_mod(x, eval_dense(s.skip(1), x)));
    }
}

/// The value is the first coefficient plus `x` times the value of the rest,
/// also where there is no coefficient.
pub proof fn lemma_eval_dense_unfold(s: Seq<nat>, x: nat)
    ensures
        eval_dense(s, x) == add_mod(coefficient_of(s, 0), mul_mod(x, eval_dense(tail_of(s), x))),
{
    if s.len() == 0 {
        lemma_modulus_positive();
        lemma_mul_mod_zero(x);
        lemma_small(0);
    }
}

/// The value of a sum is the sum of the values.
pub proof fn lemma_eval_dense_add(a: Seq<nat>, b: Seq<nat>, x: nat)
    ensures
        eval_dense(dense_add(a, b), x) == add_mod(eval_dense(a, x), eval_dense(b, x)),
    decreases a.len() + b.len(),
{
    let sum = dense_add(a, b);
    if a.len() == 0 && b.len() == 0 {
        lemma_modulus_positive();
        lemma_small(0);
    } else {
        let ta = tail_of(a);
        let tb = tail_of(b);
        assert(sum.skip(1) =~= dense_add(ta, tb));
        lemma_eval_dense_add(ta, tb, x);
        lemma_eval_dense_unfold(a, x);
        lemma_eval_dense_unfold(b, x);
        let ea = eval_dense(ta, x);
        let eb = eval_dense(tb, x);
        lemma_mul_mod_distributes(x, ea, eb);
        lemma_add_mod_swap(
            coefficient_of(a, 0),
            coefficient_of(b, 0),
            mul_mod(x, ea),
            mul_mod(x, eb),
        );
        lemma_mod_absorb(
            coefficient_of(a, 0) + coefficient_of(b, 0),
            mul_mod(x, add_mod(ea, eb)),
        );
    }
}

/// The value of a product with a constant is the constant times the value.
pub proof fn lemma_eval_dense_scale(a: Seq<nat>, c: nat, x: nat)
    ensures
        eval_dense(dense_scale(a, c), x) == mul_mod(c, eval_dense(a, x)),
    decreases a.len(),
{
    if a.len() == 0 {
        lemma_mul_mod_zero(c);
    } else {
        assert(dense_scale(a, c).skip(1) =~= dense_scale(a.skip(1), c));
        lemma_eval_dense_scale(a.skip(1), c, x);
        let e = eval_dense(a.skip(1), x);
        lemma_mul_mod_distributes(c, a[0], mul_mod(x, e));
        lemma_mul_mod_assoc(x, c, e);
        lemma_mul_mod_comm(x, c);
        lemma_mul_mod_assoc(c, x, e);
    }
}

/// The value of a product with a power of `X` is the power of `x` times the
/// value.
pub proof fn lemma_eval_dense_shift(a: Seq<nat>, e: nat, x: nat)
    ensures
        eval_dense(dense_shift(a, e), x) == mul_mod(pow_mod(x, e), eval_dense(a, x)),
    decreases e,
{
    lemma_eval_dense_reduced(a, x);
    if e == 0 {
        assert(dense_shift(a, 0) =~= a);
        lemma_mul_mod_one(eval_dense(a, x));
        lemma_small(eval_dense(a, x));
    } else {
        let shifted = dense_shift(a, e);
        let less = dense_shift(a, (e - 1) as nat);
        assert(shifted.skip(1) =~= less);
        assert(shifted[0] == 0);
        lemma_eval_dense_shift(a, (e - 1) as nat, x);
        let inner = mul_mod(x, eval_dense(less, x));
        lemma_reduced(x, eval_dense(less, x));
        lemma_add_mod_zero(inner);
        lemma_small(inner);
        lemma_mul_mod_assoc(x, pow_mod(x, (e - 1) as nat), eval_dense(a, x));
    }
}

/// The value of a product is the product of the values.
pub proof fn lemma_eval_dense_mul(a: Seq<nat>, b: Seq<nat>, x: nat)
    ensures
        eval_dense(dense_mul(a, b), x) == mul_mod(eval_dense(a, x), eval_dense(b, x)),
    decreases a.len(),
{
    let eb = eval_dense(b, x);
    if a.len() == 0 {
        lemma_mul_mod_zero(eb);
    } else {
        let rest = dense_mul(a.skip(1), b);
        lemma_eval_dense_mul(a.skip(1), b, x);
        lemma_eval_dense_scale(b, a[0], x);
        lemma_eval_dense_shift(rest, 1, x);
        lemma_eval_dense_add(dense_scale(b, a[0]), dense_shift(rest, 1), x);
        let ea = eval_dense(a.skip(1), x);
        // x^1 is x
        assert(pow_mod(x, 1) == mul_mod(x, pow_mod(x, 0)));
        lemma_mul_mod_one(x);
        lemma_mod_absorb(x, mul_mod(ea, eb));
        lemma_mul_mod_assoc(x, ea, eb);
        lemma_mul_mod_distributes(eb, a[0], mul_mod(x, ea));
    }
}

/// The value of a product with a sparse polynomial is the product of the
/// values.
pub proof fn lemma_eval_dense_mul_sparse(p: Seq<nat>, s: Terms, x: nat)
    ensures
        eval_dense(dense_mul_sparse(p, s), x) == mul_mod(eval_dense(p, x), eval_terms(s, x)),
    decreases s.len(),
{
    let ep = eval_dense(p, x);
    if s.len() == 0 {
        lemma_mul_mod_zero(ep);
    } else {
        let c = s[0].0;
        let e = s[0].1;
        let first = dense_shift(dense_scale(p, c), e);
        let rest = dense_mul_sparse(p, s.skip(1));
        lemma_eval_dense_mul_sparse(p, s.skip(1), x);
        lemma_eval_dense_scale(p, c, x);
        lemma_eval_dense_shift(dense_scale(p, c), e, x);
        lemma_eval_dense_add(first, rest, x);
        let es = eval_terms(s.skip(1), x);
        let power = pow_mod(x, e);
        // x^e (c p) == p (c x^e)
        lemma_mul_mod_assoc(power, c, ep);
        lemma_mul_mod_comm(power, c);
        lemma_mul_mod_comm(mul_mod(c, power), ep);
        lemma_mul_mod_distributes(ep, mul_mod(c, power), es);
    }
}

/// The value of the dense form of a sparse polynomial is its value.
pub proof fn lemma_eval_dense_of(s: Terms, x: nat)
    ensures
        eval_dense(dense_of(s), x) == eval_terms(s, x),
{
    let one = seq![1nat];
    lemma_modulus_positive();
    lemma_eval_dense_mul_sparse(one, s, x);
    assert(one.skip(1) =~= Seq::<nat>::empty());
    assert(eval_dense(one.skip(1), x) == 0);
    lemma_mul_mod_zero(x);
    lemma_small(1);
    assert(eval_dense(one, x) == 1);
    crate::polynomial::sparse::lemma_eval_reduced(s, x);
    lemma_mul_mod_one(eval_terms(s, x));
    lemma_small(eval_terms(s, x));
}

/// Replacing a coefficient changes the value by the difference of the two
/// coefficients times the power of `x`.
pub proof fn lemma_eval_dense_update(s: Seq<nat>, k: int, v: nat, x: nat)
    requires
        0 <= k < s.len(),
    ensures
        add_mod(eval_dense(s.update(k, v), x), mul_mod(s[k], pow_mod(x, k as nat))) == add_mod(
            eval_dense(s, x),
            mul_mod(v, pow_mod(x, k as nat)),
        ),
    decreases k,
{
    let rest = eval_dense(s.skip(1), x);
    let inner = mul_mod(x, rest);
    if k == 0 {
        assert(s.update(0, v).skip(1) =~= s.skip(1));
        lemma_mul_mod_one(s[0]);
        lemma_mul_mod_one(v);
        lemma_mod_absorb(add_mod(v, inner), s[0]);
        lemma_mod_absorb(add_mod(s[0], inner), v);
        lemma_add_mod_assoc(v, inner, s[0]);
        lemma_add_mod_assoc(s[0], inner, v);
        lemma_add_mod_comm(inner, s[0]);
        lemma_add_mod_comm(inner, v);
        lemma_add_mod_assoc(v, s[0], inner);
        lemma_add_mod_assoc(s[0], v, inner);
        lemma_add_mod_comm(v, s[0]);
    } else {
        let updated = s.skip(1).update(k - 1, v);
        assert(s.update(k, v).skip(1) =~= updated);
        assert(s.skip(1)[k - 1] == s[k]);
        lemma_eval_dense_update(s.skip(1), k - 1, v, x);
        let power = pow_mod(x, (k - 1) as nat);
        let old_term = mul_mod(s[k], power);
        let new_term = mul_mod(v, power);
        let changed = eval_dense(updated, x);
        // x (changed + old) == x (rest + new)
        lemma_mul_mod_distributes(x, changed, old_term);
        lemma_mul_mod_distributes(x, rest, new_term);
        // x (c x^(k-1)) == c x^k
        lemma_mul_mod_assoc(x, s[k], power);
        lemma_mul_mod_comm(x, s[k]);
        lemma_mul_mod_assoc(s[k], x, power);
        lemma_mul_mod_assoc(x, v, power);
        lemma_mul_mod_comm(x, v);
        lemma_mul_mod_assoc(v, x, power);
        assert(pow_mod(x, k as nat) == mul_mod(x, power));
        lemma_add_mod_assoc(s[0], mul_mod(x, changed), mul_mod(s[k], pow_mod(x, k as nat)));
        lemma_add_mod_assoc(s[0], inner, mul_mod(v, pow_mod(x, k as nat)));
    }
}

proof fn lemma_bounded_skip(d: Terms, high: nat)
    requires
        bounded(d, 0, high),
        d.len() > 0,
    ensures
        bounded(d.skip(1), 0, high),
        d[0].1 <= high,
{
    assert forall|i: int| 0 <= i < d.skip(1).len() implies (#[trigger] d.skip(1)[i]).1 <= high by {
        assert(d.skip(1)[i] == d[i + 1]);
    }
}

proof fn lemma_reduce_len_bounded(r: Seq<nat>, d: Terms, shift: nat, t: nat, high: nat)
    requires
        bounded(d, 0, high),
        shift + high < r.len(),
    ensures
        reduce(r, d, shift, t).len() == r.len(),
    decreases d.len(),
{
    if d.len() > 0 {
        let at = d[0].1 + shift;
        let next = r.update(at as int, sub_mod(coefficient_of(r, at as int), mul_mod(t, d[0].0)));
        lemma_bounded_skip(d, high);
        lemma_reduce_len_bounded(next, d.skip(1), shift, t, high);
    }
}

/// What is left after reducing, plus what was taken away, is what there
/// was: `t * X^shift` times the polynomial with the terms `d`.
pub proof fn lemma_reduce_value(r: Seq<nat>, d: Terms, shift: nat, t: nat, high: nat, x: nat)
    requires
        bounded(d, 0, high),
        shift + high < r.len(),
    ensures
        add_mod(
            eval_dense(reduce(r, d, shift, t), x),
            mul_mod(mul_mod(t, pow_mod(x, shift)), eval_terms(d, x)),
        ) == eval_dense(r, x),
    decreases d.len(),
{
    let scaled = mul_mod(t, pow_mod(x, shift));
    lemma_eval_dense_reduced(r, x);
    if d.len() == 0 {
        lemma_mul_mod_zero(scaled);
        lemma_add_mod_zero(eval_dense(r, x));
        lemma_small(eval_dense(r, x));
    } else {
        let c = d[0].0;
        let at = d[0].1 + shift;
        let taken = mul_mod(t, c);
        let next = r.update(at as int, sub_mod(r[at as int], taken));
        lemma_bounded_skip(d, high);
        lemma_reduce_value(next, d.skip(1), shift, t, high, x);
        lemma_eval_dense_update(r, at as int, sub_mod(r[at as int], taken), x);
        let power = pow_mod(x, at);
        let was = mul_mod(r[at as int], power);
        let gone = mul_mod(taken, power);
        lemma_mul_mod_sub(r[at as int], taken, power);
        // next + was == r + (was - gone), so next + gone == r
        let en = eval_dense(next, x);
        let er = eval_dense(r, x);
        lemma_eval_dense_reduced(next, x);
        assert(add_mod(en, was) == add_mod(er, add_mod(was, crate::modular::neg_mod(gone))));
        lemma_add_mod_assoc(er, was, crate::modular::neg_mod(gone));
        lemma_add_neg_cancel(add_mod(er, was), gone);
        lemma_add_mod_assoc(en, was, gone);
        lemma_add_mod_comm(was, gone);
        lemma_add_mod_assoc(en, gone, was);
        lemma_reduced(er, was);
        lemma_small(add_mod(er, was));
        assert(add_mod(add_mod(en, gone), was) == add_mod(er, was));
        lemma_add_mod_comm(add_mod(en, gone), was);
        lemma_add_mod_comm(er, was);
        lemma_reduced(en, gone);
        crate::modular::lemma_sum_cancels(was, add_mod(en, gone), er);
        // gone is scaled times the first term
        lemma_pow_mod_adds(x, d[0].1, shift);
        lemma_mul_mod_comm(pow_mod(x, d[0].1), pow_mod(x, shift));
        lemma_mul_mod_swap(t, c, pow_mod(x, shift), pow_mod(x, d[0].1));
        assert(d[0].1 + shift == shift + d[0].1);
        let first = mul_mod(c, pow_mod(x, d[0].1));
        assert(gone == mul_mod(scaled, first));
        let rest = eval_terms(d.skip(1), x);
        lemma_mul_mod_distributes(scaled, first, rest);
        let last = eval_dense(reduce(next, d.skip(1), shift, t), x);
        lemma_add_mod_comm(mul_mod(scaled, first), mul_mod(scaled, rest));
        lemma_add_mod_assoc(last, mul_mod(scaled, rest), mul_mod(scaled, first));
    }
}

/// The value of coefficients that are all zero is zero.
pub proof fn lemma_eval_dense_zero(s: Seq<nat>, x: nat)
    requires
        all_zero(s),
    ensures
        eval_dense(s, x) == 0,
    decreases s.len(),
{
    if s.len() > 0 {
        assert(all_zero(s.skip(1))) by {
            assert forall|k: int| 0 <= k < s.skip(1).len() implies s.skip(1)[k] == 0 by {
                assert(s.skip(1)[k] == s[k + 1]);
            }
        }
        lemma_eval_dense_zero(s.skip(1), x);
        lemma_mul_mod_zero(x);
        lemma_modulus_positive();
        lemma_small(0);
    }
}

/// At every step of a long division, the quotient so far times the divisor
/// plus what is left is the dividend.
pub proof fn lemma_divide_from(p: Seq<nat>, d: Terms, j: nat, x: nat)
    requires
        canonical(d),
    ensures
        divide_from(p, d, j).0.len() == p.len(),
        divide_from(p, d, j).1.len() == quotient_len(p, d),
        forall|k: int| 0 <= k < j && k < quotient_len(p, d) ==> divide_from(p, d, j).1[k] == 0,
        eval_dense(p, x) == add_mod(
            mul_mod(eval_dense(divide_from(p, d, j).1, x), eval_terms(d, x)),
            eval_dense(divide_from(p, d, j).0, x),
        ),
    decreases p.len() - j,
{
    let e = degree_of(d);
    let value = eval_terms(d, x);
    lemma_eval_dense_reduced(p, x);
    if j + e >= p.len() {
        let zeros = Seq::new(quotient_len(p, d), |k: int| 0nat);
        assert(all_zero(zeros));
        lemma_eval_dense_zero(zeros, x);
        lemma_mul_mod_zero(value);
        lemma_add_mod_zero(eval_dense(p, x));
        lemma_small(eval_dense(p, x));
    } else {
        lemma_divide_from(p, d, j + 1, x);
        let (r, q) = divide_from(p, d, j + 1);
        let t = mul_mod(coefficient_of(r, (j + e) as int), inv_mod(d.last().0));
        lemma_degree_bounds(d);
        lemma_reduce_len_bounded(r, d, j, t, e);
        lemma_reduce_value(r, d, j, t, e, x);
        lemma_eval_dense_update(q, j as int, t, x);
        let scaled = mul_mod(t, pow_mod(x, j));
        let eq = eval_dense(q, x);
        let next = eval_dense(q.update(j as int, t), x);
        let left = eval_dense(reduce(r, d, j, t), x);
        lemma_mul_mod_zero(pow_mod(x, j));
        lemma_eval_dense_reduced(q.update(j as int, t), x);
        lemma_add_mod_zero(next);
        lemma_small(next);
        assert(next == add_mod(eq, scaled));
        lemma_mul_mod_distributes(value, eq, scaled);
        lemma_add_mod_assoc(mul_mod(eq, value), mul_mod(scaled, value), left);
        lemma_add_mod_comm(mul_mod(scaled, value), left);
    }
}

/// Where a division is exact, the quotient times the divisor is the
/// dividend, at every point.
pub proof fn lemma_exact_quotient(p: Seq<nat>, d: Terms, x: nat)
    requires
        canonical(d),
        exact_quotient(p, d).is_some(),
    ensures
        eval_dense(p, x) == mul_mod(
            eval_dense(exact_quotient(p, d).unwrap(), x),
            eval_terms(d, x),
        ),
{
    lemma_divide_from(p, d, 0, x);
    let (r, q) = divide(p, d);
    lemma_eval_dense_zero(r, x);
    let product = mul_mod(eval_dense(q, x), eval_terms(d, x));
    lemma_reduced(eval_dense(q, x), eval_terms(d, x));
    lemma_add_mod_zero(product);
    lemma_small(product);
}

/// What a vector of field elements holds.
pub open spec fn coefficients_view(v: Seq<FieldElement>) -> Seq<nat> {
    Seq::new(v.len(), |i: int| v[i]@)
}

/// A polynomial held as the vector of its coefficients.
#[derive(Debug)]
pub struct DensePolynomial {
    coefficients: Vec<FieldElement>,
}

impl View for DensePolynomial {
    type V = Seq<nat>;

    closed spec fn view(&self) -> Seq<nat> {
        coefficients_view(self.coefficients@)
    }
}

impl DensePolynomial {
    /// The polynomial with the given coefficients, the constant one first.
    pub fn new(coefficients: &[FieldElement]) -> (r: DensePolynomial)
        ensures
            r@ == coefficients_view(coefficients@),
    {
        let mut out: Vec<FieldElement> = Vec::new();
        let mut k: usize = 0;
        while k < coefficients.len()
            invariant
                k <= coefficients.len(),
                out@ == coefficients@.take(k as int),
            decreases coefficients.len() - k,
        {
            out.push(coefficients[k]);
            proof {
                assert(coefficients@.take(k + 1) =~= coefficients@.take(k as int).push(
                    coefficients@[k as int],
                ));
            }
            k += 1;
        }
        proof {
            assert(coefficients@.take(k as int) =~= coefficients@);
        }
        DensePolynomial { coefficients: out }
    }

    /// The polynomial without coefficients: zero.
    pub fn empty() -> (r: DensePolynomial)
        ensures
            r@ == Seq::<nat>::empty(),
    {
        let r = DensePolynomial { coefficients: Vec::new() };
        assert(r@ =~= Seq::<nat>::empty());
        r
    }

    /// The constant polynomial `c`.
    pub fn constant(c: FieldElement) -> (r: DensePolynomial)
        ensures
            r@ == seq![c@],
    {
        let mut coefficients: Vec<FieldElement> = Vec::new();
        coefficients.push(c);
        let r = DensePolynomial { coefficients };
        assert(r@ =~= seq![c@]);
        r
    }

    /// The number of coefficients held.
    pub fn len(&self) -> (n: usize)
        ensures
            n == self@.len(),
    {
        self.coefficients.len()
    }

    /// The coefficient of `X^k`; zero past the end.
    pub fn coefficient(&self, k: usize) -> (c: FieldElement)
        ensures
            c@ == coefficient_of(self@, k as int),
    {
        if k < self.coefficients.len() {
            self.coefficients[k]
        } else {
            FieldElement::zero()
        }
    }

    /// A copy of the polynomial.
    pub fn duplicate(&self) -> (r: DensePolynomial)
        ensures
            r@ == self@,
    {
        let r = DensePolynomial::new(self.coefficients.as_slice());
        r
    }

    /// Whether two polynomials hold the same coefficients.
    pub fn equals(&self, other: &DensePolynomial) -> (r: bool)
        ensures
            r == (self@ == other@),
    {
        let n = self.coefficients.len();
        if n != other.coefficients.len() {
            assert(self@.len() != other@.len());
            return false;
        }
        let mut k: usize = 0;
        while k < n
            invariant
                k <= n,
                n == self.coefficients.len(),
                n == other.coefficients.len(),
                forall|i: int| 0 <= i < k ==> self@[i] == other@[i],
            decreases n - k,
        {
            if !self.coefficients[k].equals(&other.coefficients[k]) {
                assert(self@[k as int] != other@[k as int]);
                return false;
            }
            k += 1;
        }
        assert(self@ =~= other@);
        true
    }

    /// The largest exponent with a non-zero coefficient; zero where there is
    /// none.
    pub fn degree(&self) -> (d: usize)
        ensures
            d == dense_degree(self@),
    {
        let ghost s = self@;
        let mut k: usize = self.coefficients.len();
        proof {
            assert(s.take(k as int) =~= s);
        }
        while k > 0
            invariant
                k <= self.coefficients.len(),
                s == self@,
                dense_degree(s) == dense_degree(s.take(k as int)),
            decreases k,
        {
            proof {
                assert(s.take(k as int).last() == s[k - 1]);
                assert(s.take(k as int).drop_last() =~= s.take(k - 1));
            }
            if !self.coefficients[k - 1].is_zero() {
                return k - 1;
            }
            k -= 1;
        }
        0
    }

    /// The value of the polynomial at `x`.
    pub fn evaluate(&self, x: &FieldElement) -> (r: FieldElement)
        ensures
            r@ == eval_dense(self@, x@),
    {
        let ghost s = self@;
        let mut r = FieldElement::zero();
        let mut k: usize = self.coefficients.len();
        proof {
            assert(s.skip(k as int) =~= Seq::<nat>::empty());
        }
        while k > 0
            invariant
                k <= self.coefficients.len(),
                s == self@,
                r@ == eval_dense(s.skip(k as int), x@),
            decreases k,
        {
            k -= 1;
            proof {
                assert(s.skip(k as int)[0] == s[k as int]);
                assert(s.skip(k as int).skip(1) =~= s.skip(k + 1));
            }
            r = self.coefficients[k].add(&x.mul(&r));
        }
        proof {
            assert(s.skip(0) =~= s);
        }
        r
    }

    /// The sum of two polynomials.
    pub fn add(&self, other: &DensePolynomial) -> (r: DensePolynomial)
        ensures
            r@ == dense_add(self@, other@),
    {
        let n = if self.coefficients.len() < other.coefficients.len() {
            other.coefficients.len()
        } else {
            self.coefficients.len()
        };
        let mut out: Vec<FieldElement> = Vec::new();
        let mut k: usize = 0;
        while k < n
            invariant
                k <= n,
                n == dense_add(self@, other@).len(),
                out@.len() == k,
                forall|i: int|
                    0 <= i < k ==> (#[trigger] out@[i])@ == dense_add(self@, other@)[i],
            decreases n - k,
        {
            out.push(self.coefficient(k).add(&other.coefficient(k)));
            k += 1;
        }
        let r = DensePolynomial { coefficients: out };
        assert(r@ =~= dense_add(self@, other@));
        r
    }

    /// Replaces the polynomial by its sum with another.
    pub fn add_assign(&mut self, other: &DensePolynomial)
        ensures
            final(self)@ == dense_add(old(self)@, other@),
    {
        let sum = self.add(other);
        *self = sum;
    }

    /// The product with the constant `c`.
    pub fn scale(&self, c: &FieldElement) -> (r: DensePolynomial)
        ensures
            r@ == dense_scale(self@, c@),
    {
        let n = self.coefficients.len();
        let mut out: Vec<FieldElement> = Vec::new();
        let mut k: usize = 0;
        while k < n
            invariant
                k <= n,
                n == self.coefficients.len(),
                out@.len() == k,
                forall|i: int| 0 <= i < k ==> (#[trigger] out@[i])@ == mul_mod(c@, self@[i]),
            decreases n - k,
        {
            out.push(c.mul(&self.coefficients[k]));
            k += 1;
        }
        let r = DensePolynomial { coefficients: out };
        assert(r@ =~= dense_scale(self@, c@));
        r
    }

    /// The product with `X^e`.
    pub fn shift(&self, e: usize) -> (r: DensePolynomial)
        ensures
            r@ == dense_shift(self@, e as nat),
    {
        let n = self.coefficients.len();
        let mut out: Vec<FieldElement> = Vec::new();
        let mut k: usize = 0;
        while k < e
            invariant
                k <= e,
                out@.len() == k,
                forall|i: int| 0 <= i < k ==> (#[trigger] out@[i])@ == 0,
            decreases e - k,
        {
            out.push(FieldElement::zero());
            k += 1;
        }
        let mut i: usize = 0;
        while i < n
            invariant
                i <= n,
                n == self.coefficients.len(),
                out@.len() == e + i,
                forall|l: int| 0 <= l < e ==> (#[trigger] out@[l])@ == 0,
                forall|l: int| 0 <= l < i ==> (#[trigger] out@[e + l])@ == self@[l],
            decreases n - i,
        {
            out.push(self.coefficients[i]);
            i += 1;
        }
        let r = DensePolynomial { coefficients: out };
        proof {
            let target = dense_shift(self@, e as nat);
            assert(r@.len() == target.len());
            assert forall|l: int| 0 <= l < r@.len() implies r@[l] == target[l] by {
                if l >= e {
                    assert(r.coefficients@[e + (l - e)]@ == self@[l - e]);
                }
            }
            assert(r@ =~= target);
        }
        r
    }

    /// The product of two polynomials.
    pub fn mul(&self, other: &DensePolynomial) -> (r: DensePolynomial)
        ensures
            r@ == dense_mul(self@, other@),
    {
        let ghost a = self@;
        let mut r = DensePolynomial::empty();
        let mut k: usize = self.coefficients.len();
        proof {
            assert(a.skip(k as int) =~= Seq::<nat>::empty());
        }
        while k > 0
            invariant
                k <= self.coefficients.len(),
                a == self@,
                r@ == dense_mul(a.skip(k as int), other@),
            decreases k,
        {
            k -= 1;
            proof {
                assert(a.skip(k as int)[0] == a[k as int]);
                assert(a.skip(k as int).skip(1) =~= a.skip(k + 1));
            }
            r = other.scale(&self.coefficients[k]).add(&r.shift(1));
        }
        proof {
            assert(a.skip(0) =~= a);
        }
        r
    }

    /// The product with a sparse polynomial, term by term.
    pub fn mul_sparse(&self, other: &SparsePolynomial) -> (r: DensePolynomial)
        ensures
            r@ == dense_mul_sparse(self@, other@),
    {
        let ghost s = other@;
        let mut r = DensePolynomial::empty();
        let mut k: usize = other.len();
        proof {
            assert(s.skip(k as int) =~= Seq::<(nat, nat)>::empty());
        }
        while k > 0
            invariant
                k <= other@.len(),
                s == other@,
                r@ == dense_mul_sparse(self@, s.skip(k as int)),
            decreases k,
        {
            k -= 1;
            let (c, e) = other.term(k);
            proof {
                assert(s.skip(k as int)[0] == s[k as int]);
                assert(s.skip(k as int).skip(1) =~= s.skip(k + 1));
            }
            r = self.scale(&c).shift(e).add(&r);
        }
        proof {
            assert(s.skip(0) =~= s);
        }
        r
    }

    /// The dense form of a sparse polynomial.
    pub fn from_sparse(other: &SparsePolynomial) -> (r: DensePolynomial)
        ensures
            r@ == dense_of(other@),
    {
        DensePolynomial::constant(FieldElement::one()).mul_sparse(other)
    }

    /// The quotient by a sparse polynomial, where the division leaves no
    /// remainder. There is none by zero.
    pub fn div_sparse(&self, divisor: &SparsePolynomial) -> (r: Option<DensePolynomial>)
        ensures
            match r {
                Some(q) => exact_quotient(self@, divisor@) == Some(q@),
                None => exact_quotient(self@, divisor@).is_none(),
            },
    {
        let terms = divisor.len();
        if terms == 0 {
            return None;
        }
        let ghost p = self@;
        let ghost d = divisor@;
        let e = divisor.degree();
        let (lead, _) = divisor.term(terms - 1);
        proof {
            use_type_invariant(divisor);
            lemma_degree_bounds(d);
            assert(0 < d[terms - 1].0 < modulus());
        }
        let inverse = match lead.inv() {
            Some(v) => v,
            None => vstd::pervasive::unreached(),
        };
        let m = self.coefficients.len();
        let mut rest: Vec<FieldElement> = self.duplicate().coefficients;
        let mut quotient: Vec<FieldElement> = Vec::new();
        let count: usize = if m > e {
            m - e
        } else {
            0
        };
        let mut z: usize = 0;
        while z < count
            invariant
                z <= count,
                quotient@.len() == z,
                forall|i: int| 0 <= i < z ==> (#[trigger] quotient@[i])@ == 0,
            decreases count - z,
        {
            quotient.push(FieldElement::zero());
            z += 1;
        }
        let mut j: usize = count;
        proof {
            assert(coefficients_view(quotient@) =~= Seq::new(quotient_len(p, d), |k: int| 0nat));
        }
        while j > 0
            invariant
                j <= count,
                count == if m > e {
                    m - e
                } else {
                    0
                },
                m == p.len(),
                p == self@,
                d == divisor@,
                e == degree_of(d),
                terms == d.len(),
                terms > 0,
                canonical(d),
                crate::polynomial::sparse::bounded(d, 0, e as nat),
                inverse@ == inv_mod(d.last().0),
                rest@.len() == m,
                quotient@.len() == count,
                (coefficients_view(rest@), coefficients_view(quotient@)) == divide_from(
                    p,
                    d,
                    j as nat,
                ),
            decreases j,
        {
            j -= 1;
            let ghost before = coefficients_view(rest@);
            let ghost quotient_before = coefficients_view(quotient@);
            let t = rest[j + e].mul(&inverse);
            let mut i: usize = 0;
            proof {
                assert(d.skip(0) =~= d);
            }
            while i < terms
                invariant
                    i <= terms,
                    terms == d.len(),
                    d == divisor@,
                    e == degree_of(d),
                    crate::polynomial::sparse::bounded(d, 0, e as nat),
                    j + e < m,
                    rest@.len() == m,
                    reduce(coefficients_view(rest@), d.skip(i as int), j as nat, t@) == reduce(
                        before,
                        d,
                        j as nat,
                        t@,
                    ),
                decreases terms - i,
            {
                let (c, exponent) = divisor.term(i);
                let ghost current = coefficients_view(rest@);
                proof {
                    assert(d.skip(i as int)[0] == d[i as int]);
                    assert(d.skip(i as int).skip(1) =~= d.skip(i + 1));
                    assert(d[i as int].1 <= e);
                }
                let at = exponent + j;
                let updated = rest[at].sub(&t.mul(&c));
                rest.set(at, updated);
                proof {
                    assert(coefficients_view(rest@) =~= current.update(at as int, updated@));
                }
                i += 1;
            }
            quotient.set(j, t);
            proof {
                assert(coefficients_view(quotient@) =~= quotient_before.update(j as int, t@));
            }
        }
        let mut k: usize = 0;
        while k < m
            invariant
                k <= m,
                rest@.len() == m,
                d.len() > 0,
                p == self@,
                d == divisor@,
                (coefficients_view(rest@), coefficients_view(quotient@)) == divide(p, d),
                forall|i: int| 0 <= i < k ==> coefficients_view(rest@)[i] == 0,
            decreases m - k,
        {
            if !rest[k].is_zero() {
                proof {
                    let left = divide(p, d).0;
                    assert(left == coefficients_view(rest@));
                    assert(left[k as int] != 0);
                    assert(!all_zero(left));
                }
                return None;
            }
            k += 1;
        }
        Some(DensePolynomial { coefficients: quotient })
    }
}


/// The coefficients with their exponents.
pub open spec fn indexed(s: Seq<nat>) -> Seq<(nat, nat)> {
    Seq::new(s.len(), |k: int| (s[k], k as nat))
}

/// The quotient of two sparse polynomials where the division leaves no
/// remainder.
pub open spec fn sparse_quotient(p: Terms, d: Terms) -> Option<Terms> {
    match exact_quotient(dense_of(p), d) {
        Some(q) => Some(sum_of_pairs(indexed(q))),
        None => None,
    }
}

impl DensePolynomial {
    /// The sparse form of the polynomial: its non-zero terms.
    pub fn to_sparse(&self) -> (r: SparsePolynomial)
        ensures
            r@ == sum_of_pairs(indexed(self@)),
    {
        let mut pairs: Vec<(FieldElement, usize)> = Vec::new();
        let mut k: usize = 0;
        while k < self.coefficients.len()
            invariant
                k <= self.coefficients.len(),
                pairs@.len() == k,
                forall|i: int|
                    0 <= i < k ==> (#[trigger] pairs@[i]).0@ == self@[i] && pairs@[i].1 == i,
            decreases self.coefficients.len() - k,
        {
            pairs.push((self.coefficients[k], k));
            k += 1;
        }
        proof {
            assert(pairs_view(pairs@) =~= indexed(self@));
        }
        SparsePolynomial::new(pairs.as_slice())
    }
}

impl SparsePolynomial {
    /// The quotient by another sparse polynomial, where the division leaves
    /// no remainder. There is none by zero.
    pub fn div(&self, divisor: &SparsePolynomial) -> (r: Option<SparsePolynomial>)
        ensures
            match r {
                Some(q) => sparse_quotient(self@, divisor@) == Some(q@),
                None => sparse_quotient(self@, divisor@).is_none(),
            },
    {
        match DensePolynomial::from_sparse(self).div_sparse(divisor) {
            Some(q) => Some(q.to_sparse()),
            None => None,
        }
    }
}

} // verus!
