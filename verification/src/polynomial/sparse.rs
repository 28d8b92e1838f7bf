//! Polynomials held as their non-zero terms, by increasing exponent.
//!
//! The model of a sparse polynomial is the sequence of its terms, each a
//! pair of a coefficient and an exponent. The arithmetic is defined on such
//! sequences, and each operation is proved to agree with the arithmetic of
//! the values that the polynomials take.

use crate::field::FieldElement;
use crate::modular::{
    add_mod, lemma_add_mod_assoc, lemma_add_mod_swap, lemma_add_mod_zero, lemma_modulus_positive,
    lemma_mul_mod_comm, lemma_mul_mod_distributes, lemma_mul_mod_one, lemma_mul_mod_swap,
    lemma_mul_mod_zero, lemma_pow_mod_adds, lemma_reduced, lemma_small, modulus, mul_mod, pow_mod,
};
use vstd::prelude::*;

verus! {

/// The terms of a polynomial: pairs of a coefficient and an exponent.
pub type Terms = Seq<(nat, nat)>;

/// The value of one term at `x`.
pub open spec fn term_value(t: (nat, nat), x: nat) -> nat {
    mul_mod(t.0, pow_mod(x, t.1))
}

/// The value at `x` of the polynomial with the given terms.
pub open spec fn eval_terms(s: Terms, x: nat) -> nat
    decreases s.len(),
{
    if s.len() == 0 {
        0
    } else {
        add_mod(term_value(s[0], x), eval_terms(s.skip(1), x))
    }
}

/// Terms in their one canonical form: the coefficients are non-zero residues
/// and the exponents increase.
pub open spec fn canonical(s: Terms) -> bool {
    &&& forall|i: int| 0 <= i < s.len() ==> 0 < (#[trigger] s[i]).0 < modulus()
    &&& forall|i: int, j: int| 0 <= i < j < s.len() ==> (#[trigger] s[i]).1 < (#[trigger] s[j]).1
}

/// Every exponent lies between the two bounds.
pub open spec fn bounded(s: Terms, low: nat, high: nat) -> bool {
    forall|i: int| 0 <= i < s.len() ==> low <= (#[trigger] s[i]).1 <= high
}

/// The largest exponent; zero for the zero polynomial.
pub open spec fn degree_of(s: Terms) -> nat {
    if s.len() == 0 {
        0
    } else {
        s.last().1
    }
}

/// The terms of `c * X^e`.
pub open spec fn monomial_terms(c: nat, e: nat) -> Terms {
    if c % modulus() == 0 {
        Seq::empty()
    } else {
        seq![(c % modulus(), e)]
    }
}

/// The terms of a sum: both sequences merged by exponent, the coefficients
/// of a common exponent added, and no zero kept.
pub open spec fn add_terms(a: Terms, b: Terms) -> Terms
    decreases a.len() + b.len(),
{
    if a.len() == 0 {
        b
    } else if b.len() == 0 {
        a
    } else if a[0].1 < b[0].1 {
        seq![a[0]] + add_terms(a.skip(1), b)
    } else if b[0].1 < a[0].1 {
        seq![b[0]] + add_terms(a, b.skip(1))
    } else {
        let c = add_mod(a[0].0, b[0].0);
        let rest = add_terms(a.skip(1), b.skip(1));
        if c == 0 {
            rest
        } else {
            seq![(c, a[0].1)] + rest
        }
    }
}

/// The terms of the product with `c * X^e`.
pub open spec fn scale_terms(s: Terms, c: nat, e: nat) -> Terms
    decreases s.len(),
{
    if s.len() == 0 {
        Seq::empty()
    } else {
        let p = mul_mod(c, s[0].0);
        let rest = scale_terms(s.skip(1), c, e);
        if p == 0 {
            rest
        } else {
            seq![(p, s[0].1 + e)] + rest
        }
    }
}

/// The terms of the negation.
pub open spec fn neg_terms(s: Terms) -> Terms {
    scale_terms(s, (modulus() - 1) as nat, 0)
}

/// The terms of a product: the sum of `b` multiplied by each term of `a`.
pub open spec fn mul_terms(a: Terms, b: Terms) -> Terms
    decreases a.len(),
{
    if a.len() == 0 {
        Seq::empty()
    } else {
        add_terms(scale_terms(b, a[0].0, a[0].1), mul_terms(a.skip(1), b))
    }
}

/// The terms of the `n`-th power.
pub open spec fn pow_terms(s: Terms, n: nat) -> Terms
    decreases n,
{
    if n == 0 {
        monomial_terms(1, 0)
    } else {
        mul_terms(s, pow_terms(s, (n - 1) as nat))
    }
}

/// The polynomial that a list of pairs stands for: the sum of its monomials.
pub open spec fn sum_of_pairs(pairs: Seq<(nat, nat)>) -> Terms
    decreases pairs.len(),
{
    if pairs.len() == 0 {
        Seq::empty()
    } else {
        add_terms(monomial_terms(pairs[0].0, pairs[0].1), sum_of_pairs(pairs.skip(1)))
    }
}

/// The order of two terms: by coefficient, then by exponent.
pub open spec fn term_lt(s: (nat, nat), t: (nat, nat)) -> bool {
    s.0 < t.0 || (s.0 == t.0 && s.1 < t.1)
}

/// The lexicographic order of two term sequences.
pub open spec fn terms_lt(a: Terms, b: Terms) -> bool
    decreases a.len(),
{
    if b.len() == 0 {
        false
    } else if a.len() == 0 {
        true
    } else if a[0] == b[0] {
        terms_lt(a.skip(1), b.skip(1))
    } else {
        term_lt(a[0], b[0])
    }
}

/// The order of polynomials: by degree, then by their terms.
pub open spec fn poly_lt(a: Terms, b: Terms) -> bool {
    degree_of(a) < degree_of(b) || (degree_of(a) == degree_of(b) && terms_lt(a, b))
}

/// Every value of a polynomial is a residue.
pub proof fn lemma_eval_reduced(s: Terms, x: nat)
    ensures
        eval_terms(s, x) < modulus(),
{
    lemma_modulus_positive();
    if s.len() > 0 {
        lemma_reduced(term_value(s[0], x), eval_terms(s.skip(1), x));
    }
}

/// The value of a term followed by more terms.
pub proof fn lemma_eval_cons(t: (nat, nat), r: Terms, x: nat)
    ensures
        eval_terms(seq![t] + r, x) == add_mod(term_value(t, x), eval_terms(r, x)),
{
    let s = seq![t] + r;
    assert(s[0] == t);
    assert(s.skip(1) =~= r);
}

/// The value of one term alone.
pub proof fn lemma_eval_single(t: (nat, nat), x: nat)
    ensures
        eval_terms(seq![t], x) == add_mod(term_value(t, x), 0),
{
    let s = seq![t];
    assert(s[0] == t);
    assert(s.skip(1) =~= Seq::<(nat, nat)>::empty());
    assert(eval_terms(s.skip(1), x) == 0);
}

/// The value of `c * X^e` at `x` is `c` times the power of `x`.
pub proof fn lemma_eval_monomial(c: nat, e: nat, x: nat)
    ensures
        eval_terms(monomial_terms(c, e), x) == term_value((c, e), x),
{
    let m = modulus();
    crate::modular::lemma_mod_absorb(c, pow_mod(x, e));
    if c % m == 0 {
        lemma_mul_mod_zero(pow_mod(x, e));
    } else {
        let t = (c % m, e);
        lemma_eval_single(t, x);
        lemma_add_mod_zero(term_value(t, x));
        lemma_reduced(t.0, pow_mod(x, e));
        lemma_small(term_value(t, x));
    }
}

/// The value of a sum is the sum of the values.
pub proof fn lemma_eval_add(a: Terms, b: Terms, x: nat)
    ensures
        eval_terms(add_terms(a, b), x) == add_mod(eval_terms(a, x), eval_terms(b, x)),
    decreases a.len() + b.len(),
{
    lemma_eval_reduced(a, x);
    lemma_eval_reduced(b, x);
    if a.len() == 0 {
        lemma_add_mod_zero(eval_terms(b, x));
        lemma_small(eval_terms(b, x));
    } else if b.len() == 0 {
        lemma_add_mod_zero(eval_terms(a, x));
        lemma_small(eval_terms(a, x));
    } else {
        let ta = term_value(a[0], x);
        let tb = term_value(b[0], x);
        let ea = eval_terms(a.skip(1), x);
        let eb = eval_terms(b.skip(1), x);
        if a[0].1 < b[0].1 {
            lemma_eval_add(a.skip(1), b, x);
            lemma_eval_cons(a[0], add_terms(a.skip(1), b), x);
            lemma_add_mod_assoc(ta, ea, eval_terms(b, x));
        } else if b[0].1 < a[0].1 {
            lemma_eval_add(a, b.skip(1), x);
            lemma_eval_cons(b[0], add_terms(a, b.skip(1)), x);
            lemma_add_mod_assoc(tb, eval_terms(a, x), eb);
            crate::modular::lemma_add_mod_comm(tb, eval_terms(a, x));
            lemma_add_mod_assoc(eval_terms(a, x), tb, eb);
        } else {
            let c = add_mod(a[0].0, b[0].0);
            let e = a[0].1;
            let rest = add_terms(a.skip(1), b.skip(1));
            lemma_eval_add(a.skip(1), b.skip(1), x);
            lemma_mul_mod_distributes(pow_mod(x, e), a[0].0, b[0].0);
            assert(term_value((c, e), x) == add_mod(ta, tb));
            lemma_add_mod_swap(ta, ea, tb, eb);
            if c == 0 {
                lemma_mul_mod_zero(pow_mod(x, e));
                lemma_add_mod_zero(add_mod(ea, eb));
                lemma_reduced(ea, eb);
                lemma_small(add_mod(ea, eb));
                crate::modular::lemma_mod_absorb(ta + tb, add_mod(ea, eb));
            } else {
                lemma_eval_cons((c, e), rest, x);
            }
        }
    }
}

/// The value of a product with a monomial is the product of the values.
pub proof fn lemma_eval_scale(s: Terms, c: nat, e: nat, x: nat)
    ensures
        eval_terms(scale_terms(s, c, e), x) == mul_mod(
            term_value((c, e), x),
            eval_terms(s, x),
        ),
    decreases s.len(),
{
    let tc = term_value((c, e), x);
    if s.len() == 0 {
        lemma_mul_mod_zero(tc);
    } else {
        let p = mul_mod(c, s[0].0);
        let rest = scale_terms(s.skip(1), c, e);
        let ts = term_value(s[0], x);
        let es = eval_terms(s.skip(1), x);
        lemma_eval_scale(s.skip(1), c, e, x);
        // the scaled term is the product of the two terms
        lemma_pow_mod_adds(x, s[0].1, e);
        lemma_mul_mod_comm(pow_mod(x, s[0].1), pow_mod(x, e));
        lemma_mul_mod_swap(c, s[0].0, pow_mod(x, e), pow_mod(x, s[0].1));
        assert(term_value((p, s[0].1 + e), x) == mul_mod(tc, ts));
        lemma_mul_mod_distributes(tc, ts, es);
        if p == 0 {
            lemma_mul_mod_zero(pow_mod(x, s[0].1 + e));
            lemma_eval_reduced(rest, x);
            lemma_add_mod_zero(eval_terms(rest, x));
            lemma_small(eval_terms(rest, x));
        } else {
            lemma_eval_cons((p, s[0].1 + e), rest, x);
        }
    }
}

/// The value of a product is the product of the values.
pub proof fn lemma_eval_mul(a: Terms, b: Terms, x: nat)
    ensures
        eval_terms(mul_terms(a, b), x) == mul_mod(eval_terms(a, x), eval_terms(b, x)),
    decreases a.len(),
{
    if a.len() == 0 {
        lemma_mul_mod_zero(eval_terms(b, x));
    } else {
        lemma_eval_mul(a.skip(1), b, x);
        lemma_eval_scale(b, a[0].0, a[0].1, x);
        lemma_eval_add(scale_terms(b, a[0].0, a[0].1), mul_terms(a.skip(1), b), x);
        lemma_mul_mod_distributes(
            eval_terms(b, x),
            term_value(a[0], x),
            eval_terms(a.skip(1), x),
        );
    }
}

/// The value of a power is the power of the value.
pub proof fn lemma_eval_pow(s: Terms, n: nat, x: nat)
    ensures
        eval_terms(pow_terms(s, n), x) == pow_mod(eval_terms(s, x), n),
    decreases n,
{
    if n == 0 {
        lemma_modulus_positive();
        lemma_eval_monomial(1, 0, x);
        lemma_mul_mod_one(1);
        lemma_small(1);
    } else {
        lemma_eval_pow(s, (n - 1) as nat, x);
        lemma_eval_mul(s, pow_terms(s, (n - 1) as nat), x);
    }
}

/// The value of the negation is the negation of the value.
pub proof fn lemma_eval_neg(s: Terms, x: nat)
    ensures
        eval_terms(neg_terms(s), x) == crate::modular::neg_mod(eval_terms(s, x)),
{
    let minus_one = (modulus() - 1) as nat;
    lemma_modulus_positive();
    lemma_eval_scale(s, minus_one, 0, x);
    lemma_mul_mod_one(minus_one);
    lemma_small(minus_one);
    crate::modular::lemma_neg_mod_is_mul(eval_terms(s, x));
}

/// The polynomial of a list of pairs takes the value of the list.
pub proof fn lemma_eval_sum_of_pairs(pairs: Seq<(nat, nat)>, x: nat)
    ensures
        eval_terms(sum_of_pairs(pairs), x) == eval_terms(pairs, x),
    decreases pairs.len(),
{
    if pairs.len() > 0 {
        lemma_eval_sum_of_pairs(pairs.skip(1), x);
        lemma_eval_monomial(pairs[0].0, pairs[0].1, x);
        lemma_eval_add(
            monomial_terms(pairs[0].0, pairs[0].1),
            sum_of_pairs(pairs.skip(1)),
            x,
        );
    }
}

/// The terms after the first are canonical, and their exponents are above
/// the first.
pub proof fn lemma_canonical_skip(s: Terms, low: nat, high: nat)
    requires
        canonical(s),
        bounded(s, low, high),
        s.len() > 0,
    ensures
        canonical(s.skip(1)),
        bounded(s.skip(1), s[0].1 + 1, high),
        bounded(s.skip(1), low, high),
        low <= s[0].1 <= high,
{
    let r = s.skip(1);
    assert forall|i: int| 0 <= i < r.len() implies 0 < (#[trigger] r[i]).0 < modulus() && s[0].1
        + 1 <= r[i].1 <= high by {
        assert(r[i] == s[i + 1]);
        assert(s[0].1 < s[i + 1].1);
    }
    assert forall|i: int, j: int| 0 <= i < j < r.len() implies (#[trigger] r[i]).1 < (
    #[trigger] r[j]).1 by {
        assert(r[i] == s[i + 1]);
        assert(r[j] == s[j + 1]);
    }
}

/// A term before canonical terms of larger exponents gives canonical terms.
pub proof fn lemma_canonical_cons(t: (nat, nat), r: Terms, high: nat)
    requires
        0 < t.0 < modulus(),
        canonical(r),
        bounded(r, t.1 + 1, high),
        t.1 <= high,
    ensures
        canonical(seq![t] + r),
        bounded(seq![t] + r, t.1, high),
{
    let s = seq![t] + r;
    assert forall|i: int| 0 <= i < s.len() implies 0 < (#[trigger] s[i]).0 < modulus() && t.1
        <= s[i].1 <= high by {
        if i > 0 {
            assert(s[i] == r[i - 1]);
        }
    }
    assert forall|i: int, j: int| 0 <= i < j < s.len() implies (#[trigger] s[i]).1 < (
    #[trigger] s[j]).1 by {
        assert(s[j] == r[j - 1]);
        if i > 0 {
            assert(s[i] == r[i - 1]);
        }
    }
}

/// Exponents that lie between two bounds lie between wider ones.
pub proof fn lemma_bounded_widen(s: Terms, low: nat, high: nat, lower: nat, higher: nat)
    requires
        bounded(s, low, high),
        lower <= low,
        high <= higher,
    ensures
        bounded(s, lower, higher),
{
}

/// The exponents of canonical terms reach from zero to the degree.
pub proof fn lemma_degree_bounds(s: Terms)
    requires
        canonical(s),
    ensures
        bounded(s, 0, degree_of(s)),
{
    assert forall|i: int| 0 <= i < s.len() implies (#[trigger] s[i]).1 <= degree_of(s) by {
        if i < s.len() - 1 {
            assert(s[i].1 < s[s.len() - 1].1);
        }
    }
}

/// The degree is an exponent, or zero: it is at most the upper bound.
pub proof fn lemma_degree_bounded(s: Terms, low: nat, high: nat)
    requires
        bounded(s, low, high),
    ensures
        degree_of(s) <= high,
{
    if s.len() > 0 {
        assert(s[s.len() - 1].1 <= high);
    }
}

/// A sum of canonical terms is canonical, and its exponents lie where the
/// summands' do.
pub proof fn lemma_add_canonical(a: Terms, b: Terms, low: nat, high: nat)
    requires
        canonical(a),
        canonical(b),
        bounded(a, low, high),
        bounded(b, low, high),
    ensures
        canonical(add_terms(a, b)),
        bounded(add_terms(a, b), low, high),
    decreases a.len() + b.len(),
{
    if a.len() == 0 || b.len() == 0 {
    } else if a[0].1 < b[0].1 {
        lemma_canonical_skip(a, low, high);
        let next = a[0].1 + 1;
        assert(bounded(b, next as nat, high)) by {
            assert forall|i: int| 0 <= i < b.len() implies next <= (#[trigger] b[i]).1 <= high by {
                if i > 0 {
                    assert(b[0].1 < b[i].1);
                }
            }
        }
        lemma_add_canonical(a.skip(1), b, next as nat, high);
        lemma_canonical_cons(a[0], add_terms(a.skip(1), b), high);
        lemma_bounded_widen(add_terms(a, b), a[0].1, high, low, high);
    } else if b[0].1 < a[0].1 {
        lemma_canonical_skip(b, low, high);
        let next = b[0].1 + 1;
        assert(bounded(a, next as nat, high)) by {
            assert forall|i: int| 0 <= i < a.len() implies next <= (#[trigger] a[i]).1 <= high by {
                if i > 0 {
                    assert(a[0].1 < a[i].1);
                }
            }
        }
        lemma_add_canonical(a, b.skip(1), next as nat, high);
        lemma_canonical_cons(b[0], add_terms(a, b.skip(1)), high);
        lemma_bounded_widen(add_terms(a, b), b[0].1, high, low, high);
    } else {
        lemma_canonical_skip(a, low, high);
        lemma_canonical_skip(b, low, high);
        let next = a[0].1 + 1;
        let c = add_mod(a[0].0, b[0].0);
        lemma_add_canonical(a.skip(1), b.skip(1), next as nat, high);
        let rest = add_terms(a.skip(1), b.skip(1));
        if c == 0 {
            lemma_bounded_widen(rest, next as nat, high, low, high);
        } else {
            lemma_reduced(a[0].0, b[0].0);
            lemma_canonical_cons((c, a[0].1), rest, high);
            lemma_bounded_widen(add_terms(a, b), a[0].1, high, low, high);
        }
    }
}

/// A product with a monomial is canonical, and its exponents are shifted.
pub proof fn lemma_scale_canonical(s: Terms, c: nat, e: nat, low: nat, high: nat)
    requires
        canonical(s),
        bounded(s, low, high),
    ensures
        canonical(scale_terms(s, c, e)),
        bounded(scale_terms(s, c, e), low + e, high + e),
    decreases s.len(),
{
    if s.len() > 0 {
        lemma_canonical_skip(s, low, high);
        lemma_scale_canonical(s.skip(1), c, e, s[0].1 + 1, high);
        let p = mul_mod(c, s[0].0);
        let rest = scale_terms(s.skip(1), c, e);
        if p == 0 {
            lemma_bounded_widen(rest, s[0].1 + 1 + e, high + e, low + e, high + e);
        } else {
            lemma_reduced(c, s[0].0);
            lemma_canonical_cons((p, s[0].1 + e), rest, high + e);
            lemma_bounded_widen(scale_terms(s, c, e), s[0].1 + e, high + e, low + e, high + e);
        }
    }
}

/// A product of canonical terms is canonical, and its degree is at most the
/// sum of the factors' degrees.
pub proof fn lemma_mul_canonical(a: Terms, b: Terms)
    requires
        canonical(a),
        canonical(b),
    ensures
        canonical(mul_terms(a, b)),
        bounded(mul_terms(a, b), 0, degree_of(a) + degree_of(b)),
        degree_of(mul_terms(a, b)) <= degree_of(a) + degree_of(b),
    decreases a.len(),
{
    let high = degree_of(a) + degree_of(b);
    if a.len() > 0 {
        lemma_degree_bounds(a);
        lemma_degree_bounds(b);
        lemma_canonical_skip(a, 0, degree_of(a));
        lemma_mul_canonical(a.skip(1), b);
        lemma_degree_bounded(a.skip(1), 0, degree_of(a));
        lemma_scale_canonical(b, a[0].0, a[0].1, 0, degree_of(b));
        lemma_bounded_widen(
            scale_terms(b, a[0].0, a[0].1),
            a[0].1,
            degree_of(b) + a[0].1,
            0,
            high,
        );
        lemma_bounded_widen(
            mul_terms(a.skip(1), b),
            0,
            degree_of(a.skip(1)) + degree_of(b),
            0,
            high,
        );
        lemma_add_canonical(scale_terms(b, a[0].0, a[0].1), mul_terms(a.skip(1), b), 0, high);
    }
    lemma_degree_bounded(mul_terms(a, b), 0, high);
}

/// The terms of `c * X^e` are canonical, and the degree is at most `e`.
pub proof fn lemma_monomial_canonical(c: nat, e: nat)
    ensures
        canonical(monomial_terms(c, e)),
        bounded(monomial_terms(c, e), 0, e),
        degree_of(monomial_terms(c, e)) <= e,
{
    lemma_modulus_positive();
    lemma_reduced(c, c);
}

/// A power of canonical terms is canonical, and its degree is at most the
/// degree times the exponent.
pub proof fn lemma_pow_canonical(s: Terms, n: nat)
    requires
        canonical(s),
    ensures
        canonical(pow_terms(s, n)),
        degree_of(pow_terms(s, n)) <= n * degree_of(s),
    decreases n,
{
    if n == 0 {
        lemma_monomial_canonical(1, 0);
    } else {
        lemma_pow_canonical(s, (n - 1) as nat);
        lemma_mul_canonical(s, pow_terms(s, (n - 1) as nat));
        assert(degree_of(s) + (n - 1) * degree_of(s) == n * degree_of(s)) by (nonlinear_arith);
    }
}

/// No sequence of terms comes before itself.
pub proof fn lemma_terms_lt_irreflexive(a: Terms)
    ensures
        !terms_lt(a, a),
    decreases a.len(),
{
    if a.len() > 0 {
        lemma_terms_lt_irreflexive(a.skip(1));
    }
}

/// The order of term sequences is transitive.
pub proof fn lemma_terms_lt_transitive(a: Terms, b: Terms, c: Terms)
    requires
        terms_lt(a, b),
        terms_lt(b, c),
    ensures
        terms_lt(a, c),
    decreases a.len(),
{
    if a.len() > 0 && a[0] == b[0] && b[0] == c[0] {
        lemma_terms_lt_transitive(a.skip(1), b.skip(1), c.skip(1));
    }
}

/// Of two different term sequences one comes before the other.
pub proof fn lemma_terms_lt_total(a: Terms, b: Terms)
    requires
        a != b,
    ensures
        terms_lt(a, b) || terms_lt(b, a),
    decreases a.len(),
{
    if a.len() > 0 && b.len() > 0 && a[0] == b[0] {
        if a.skip(1) == b.skip(1) {
            assert(a =~= seq![a[0]] + a.skip(1));
            assert(b =~= seq![b[0]] + b.skip(1));
        }
        lemma_terms_lt_total(a.skip(1), b.skip(1));
    } else if a.len() == 0 && b.len() == 0 {
        assert(a =~= b);
    }
}

/// The order of polynomials is a strict total order: no polynomial comes
/// before itself, the order is transitive, and of two different polynomials
/// one comes before the other.
pub proof fn lemma_poly_lt_order(a: Terms, b: Terms, c: Terms)
    ensures
        !poly_lt(a, a),
        poly_lt(a, b) && poly_lt(b, c) ==> poly_lt(a, c),
        a != b ==> poly_lt(a, b) || poly_lt(b, a),
        !(poly_lt(a, b) && poly_lt(b, a)),
{
    lemma_terms_lt_irreflexive(a);
    if poly_lt(a, b) && poly_lt(b, c) && degree_of(a) == degree_of(b) && degree_of(b) == degree_of(
        c,
    ) {
        lemma_terms_lt_transitive(a, b, c);
    }
    if a != b {
        lemma_terms_lt_total(a, b);
    }
    if poly_lt(a, b) && poly_lt(b, a) {
        lemma_terms_lt_transitive(a, b, a);
    }
}

/// What a vector of coefficients and exponents stands for.
pub open spec fn pairs_view(v: Seq<(FieldElement, usize)>) -> Seq<(nat, nat)> {
    Seq::new(v.len(), |i: int| (v[i].0@, v[i].1 as nat))
}

/// A polynomial held as its non-zero terms, by increasing exponent.
#[derive(Debug)]
pub struct SparsePolynomial {
    terms: Vec<(FieldElement, usize)>,
}

impl View for SparsePolynomial {
    type V = Seq<(nat, nat)>;

    closed spec fn view(&self) -> Seq<(nat, nat)> {
        pairs_view(self.terms@)
    }
}

impl SparsePolynomial {
    /// The terms are held in canonical form.
    #[verifier::type_invariant]
    pub open spec fn well_formed(self) -> bool {
        canonical(self@)
    }

    /// The zero polynomial.
    pub fn zero() -> (r: SparsePolynomial)
        ensures
            r@ == Seq::<(nat, nat)>::empty(),
    {
        let r = SparsePolynomial { terms: Vec::new() };
        assert(r@ =~= Seq::<(nat, nat)>::empty());
        r
    }

    /// The polynomial `c * X^e`.
    pub fn monomial(c: FieldElement, e: usize) -> (r: SparsePolynomial)
        ensures
            r@ == monomial_terms(c@, e as nat),
    {
        proof {
            use_type_invariant(&c);
            lemma_small(c@);
        }
        if c.is_zero() {
            SparsePolynomial::zero()
        } else {
            let mut terms: Vec<(FieldElement, usize)> = Vec::new();
            terms.push((c, e));
            assert(pairs_view(terms@) =~= monomial_terms(c@, e as nat));
            SparsePolynomial { terms }
        }
    }

    /// The constant polynomial `c`.
    pub fn constant(c: FieldElement) -> (r: SparsePolynomial)
        ensures
            r@ == monomial_terms(c@, 0),
    {
        SparsePolynomial::monomial(c, 0)
    }

    /// The polynomial `X`.
    pub fn x() -> (r: SparsePolynomial)
        ensures
            r@ == monomial_terms(1, 1),
    {
        SparsePolynomial::monomial(FieldElement::one(), 1)
    }

    /// The sum of the monomials that the pairs of a coefficient and an
    /// exponent stand for.
    pub fn new(pairs: &[(FieldElement, usize)]) -> (r: SparsePolynomial)
        ensures
            r@ == sum_of_pairs(pairs_view(pairs@)),
    {
        let ghost all = pairs_view(pairs@);
        let mut r = SparsePolynomial::zero();
        let mut k: usize = pairs.len();
        assert(all.skip(k as int) =~= Seq::<(nat, nat)>::empty());
        while k > 0
            invariant
                k <= pairs.len(),
                all == pairs_view(pairs@),
                r@ == sum_of_pairs(all.skip(k as int)),
            decreases k,
        {
            k -= 1;
            let (c, e) = pairs[k];
            let m = SparsePolynomial::monomial(c, e);
            proof {
                assert(all.skip(k as int)[0] == (c@, e as nat));
                assert(all.skip(k as int).skip(1) =~= all.skip(k + 1));
            }
            r = m.add(&r);
        }
        assert(all.skip(0) =~= all);
        r
    }

    /// The number of non-zero terms.
    pub fn len(&self) -> (n: usize)
        ensures
            n == self@.len(),
    {
        self.terms.len()
    }

    /// The largest exponent of a non-zero term; zero for the zero polynomial.
    pub fn degree(&self) -> (d: usize)
        ensures
            d == degree_of(self@),
    {
        let n = self.terms.len();
        if n == 0 {
            0
        } else {
            self.terms[n - 1].1
        }
    }

    /// The term at a position, counted by increasing exponent.
    pub fn term(&self, k: usize) -> (t: (FieldElement, usize))
        requires
            k < self@.len(),
        ensures
            (t.0@, t.1 as nat) == self@[k as int],
    {
        self.terms[k]
    }

    /// A copy of the polynomial.
    pub fn duplicate(&self) -> (r: SparsePolynomial)
        ensures
            r@ == self@,
    {
        let mut terms: Vec<(FieldElement, usize)> = Vec::new();
        let mut k: usize = 0;
        while k < self.terms.len()
            invariant
                k <= self.terms.len(),
                terms@ == self.terms@.take(k as int),
            decreases self.terms.len() - k,
        {
            terms.push(self.terms[k]);
            proof {
                assert(self.terms@.take(k + 1) =~= self.terms@.take(k as int).push(
                    self.terms@[k as int],
                ));
            }
            k += 1;
        }
        proof {
            use_type_invariant(self);
            assert(self.terms@.take(k as int) =~= self.terms@);
        }
        SparsePolynomial { terms }
    }

    /// The value of the polynomial at `x`.
    pub fn evaluate(&self, x: &FieldElement) -> (r: FieldElement)
        ensures
            r@ == eval_terms(self@, x@),
    {
        let ghost s = self@;
        let mut r = FieldElement::zero();
        let mut k: usize = self.terms.len();
        assert(s.skip(k as int) =~= Seq::<(nat, nat)>::empty());
        while k > 0
            invariant
                k <= self.terms.len(),
                s == self@,
                r@ == eval_terms(s.skip(k as int), x@),
            decreases k,
        {
            k -= 1;
            let (c, e) = self.terms[k];
            proof {
                assert(s.skip(k as int)[0] == (c@, e as nat));
                assert(s.skip(k as int).skip(1) =~= s.skip(k + 1));
            }
            r = c.mul(&x.pow(e)).add(&r);
        }
        assert(s.skip(0) =~= s);
        r
    }

    /// The sum of two polynomials.
    pub fn add(&self, other: &SparsePolynomial) -> (r: SparsePolynomial)
        ensures
            r@ == add_terms(self@, other@),
    {
        let ghost a = self@;
        let ghost b = other@;
        let n = self.terms.len();
        let m = other.terms.len();
        let mut out: Vec<(FieldElement, usize)> = Vec::new();
        let mut i: usize = 0;
        let mut j: usize = 0;
        proof {
            assert(a.skip(0) =~= a);
            assert(b.skip(0) =~= b);
            assert(pairs_view(out@) + add_terms(a, b) =~= add_terms(a, b));
        }
        while i < n && j < m
            invariant
                i <= n,
                j <= m,
                n == self.terms.len(),
                m == other.terms.len(),
                a == self@,
                b == other@,
                pairs_view(out@) + add_terms(a.skip(i as int), b.skip(j as int)) == add_terms(
                    a,
                    b,
                ),
            decreases (n - i) + (m - j),
        {
            let (ca, ea) = self.terms[i];
            let (cb, eb) = other.terms[j];
            let ghost before = pairs_view(out@);
            let ghost sa = a.skip(i as int);
            let ghost sb = b.skip(j as int);
            proof {
                assert(sa[0] == (ca@, ea as nat));
                assert(sb[0] == (cb@, eb as nat));
                assert(sa.skip(1) =~= a.skip(i + 1));
                assert(sb.skip(1) =~= b.skip(j + 1));
            }
            if ea < eb {
                out.push((ca, ea));
                i += 1;
            } else if eb < ea {
                out.push((cb, eb));
                j += 1;
            } else {
                let c = ca.add(&cb);
                if !c.is_zero() {
                    out.push((c, ea));
                }
                i += 1;
                j += 1;
            }
            proof {
                let rest = add_terms(a.skip(i as int), b.skip(j as int));
                assert(pairs_view(out@) + rest =~= before + add_terms(sa, sb));
            }
        }
        proof {
            assert(add_terms(a.skip(i as int), b.skip(j as int)) =~= a.skip(i as int) + b.skip(
                j as int,
            ));
        }
        while i < n
            invariant
                i <= n,
                j <= m,
                i == n || j == m,
                n == self.terms.len(),
                m == other.terms.len(),
                a == self@,
                b == other@,
                pairs_view(out@) + (a.skip(i as int) + b.skip(j as int)) == add_terms(a, b),
            decreases n - i,
        {
            let ghost before = pairs_view(out@);
            out.push(self.terms[i]);
            i += 1;
            proof {
                assert(pairs_view(out@) + (a.skip(i as int) + b.skip(j as int)) =~= before + (
                a.skip(i - 1) + b.skip(j as int)));
            }
        }
        while j < m
            invariant
                i == n,
                j <= m,
                n == self.terms.len(),
                m == other.terms.len(),
                a == self@,
                b == other@,
                pairs_view(out@) + (a.skip(i as int) + b.skip(j as int)) == add_terms(a, b),
            decreases m - j,
        {
            let ghost before = pairs_view(out@);
            out.push(other.terms[j]);
            j += 1;
            proof {
                assert(pairs_view(out@) + (a.skip(i as int) + b.skip(j as int)) =~= before + (
                a.skip(i as int) + b.skip(j - 1)));
            }
        }
        proof {
            use_type_invariant(self);
            use_type_invariant(other);
            lemma_degree_bounds(a);
            lemma_degree_bounds(b);
            let high = if degree_of(a) < degree_of(b) {
                degree_of(b)
            } else {
                degree_of(a)
            };
            lemma_bounded_widen(a, 0, degree_of(a), 0, high);
            lemma_bounded_widen(b, 0, degree_of(b), 0, high);
            lemma_add_canonical(a, b, 0, high);
            assert(pairs_view(out@) =~= add_terms(a, b));
        }
        SparsePolynomial { terms: out }
    }

    /// The product with `c * X^e`.
    pub fn scale(&self, c: &FieldElement, e: usize) -> (r: SparsePolynomial)
        requires
            degree_of(self@) + e <= usize::MAX,
        ensures
            r@ == scale_terms(self@, c@, e as nat),
    {
        let ghost s = self@;
        let n = self.terms.len();
        let mut out: Vec<(FieldElement, usize)> = Vec::new();
        let mut k: usize = 0;
        proof {
            use_type_invariant(self);
            lemma_degree_bounds(s);
            assert(s.skip(0) =~= s);
            assert(pairs_view(out@) + scale_terms(s, c@, e as nat) =~= scale_terms(
                s,
                c@,
                e as nat,
            ));
        }
        while k < n
            invariant
                k <= n,
                n == self.terms.len(),
                s == self@,
                bounded(s, 0, degree_of(s)),
                degree_of(s) + e <= usize::MAX,
                pairs_view(out@) + scale_terms(s.skip(k as int), c@, e as nat) == scale_terms(
                    s,
                    c@,
                    e as nat,
                ),
            decreases n - k,
        {
            let (ck, ek) = self.terms[k];
            let ghost before = pairs_view(out@);
            let ghost sk = s.skip(k as int);
            proof {
                assert(sk[0] == (ck@, ek as nat));
                assert(sk.skip(1) =~= s.skip(k + 1));
                assert(s[k as int].1 <= degree_of(s));
            }
            let p = c.mul(&ck);
            if !p.is_zero() {
                out.push((p, ek + e));
            }
            k += 1;
            proof {
                assert(pairs_view(out@) + scale_terms(s.skip(k as int), c@, e as nat) =~= before
                    + scale_terms(sk, c@, e as nat));
            }
        }
        proof {
            lemma_scale_canonical(s, c@, e as nat, 0, degree_of(s));
            assert(pairs_view(out@) =~= scale_terms(s, c@, e as nat));
        }
        SparsePolynomial { terms: out }
    }

    /// The negation of the polynomial.
    pub fn neg(&self) -> (r: SparsePolynomial)
        ensures
            r@ == neg_terms(self@),
    {
        self.scale(&FieldElement::negative_one(), 0)
    }

    /// The difference of two polynomials.
    pub fn sub(&self, other: &SparsePolynomial) -> (r: SparsePolynomial)
        ensures
            r@ == add_terms(self@, neg_terms(other@)),
    {
        self.add(&other.neg())
    }

    /// The product of two polynomials.
    pub fn mul(&self, other: &SparsePolynomial) -> (r: SparsePolynomial)
        requires
            degree_of(self@) + degree_of(other@) <= usize::MAX,
        ensures
            r@ == mul_terms(self@, other@),
    {
        let ghost a = self@;
        let ghost b = other@;
        let mut r = SparsePolynomial::zero();
        let mut k: usize = self.terms.len();
        proof {
            use_type_invariant(self);
            lemma_degree_bounds(a);
            assert(a.skip(k as int) =~= Seq::<(nat, nat)>::empty());
        }
        while k > 0
            invariant
                k <= self.terms.len(),
                a == self@,
                b == other@,
                bounded(a, 0, degree_of(a)),
                degree_of(a) + degree_of(b) <= usize::MAX,
                r@ == mul_terms(a.skip(k as int), b),
            decreases k,
        {
            k -= 1;
            let (c, e) = self.terms[k];
            proof {
                assert(a.skip(k as int)[0] == (c@, e as nat));
                assert(a.skip(k as int).skip(1) =~= a.skip(k + 1));
                assert(a[k as int].1 <= degree_of(a));
            }
            let scaled = other.scale(&c, e);
            r = scaled.add(&r);
        }
        assert(a.skip(0) =~= a);
        r
    }

    /// The polynomial multiplied by itself `n` times.
    pub fn pow(&self, n: usize) -> (r: SparsePolynomial)
        requires
            n * degree_of(self@) <= usize::MAX,
        ensures
            r@ == pow_terms(self@, n as nat),
    {
        let ghost s = self@;
        let mut r = SparsePolynomial::monomial(FieldElement::one(), 0);
        let mut k: usize = 0;
        while k < n
            invariant
                k <= n,
                s == self@,
                n * degree_of(s) <= usize::MAX,
                r@ == pow_terms(s, k as nat),
            decreases n - k,
        {
            proof {
                use_type_invariant(self);
                lemma_pow_canonical(s, k as nat);
                assert(degree_of(s) + k * degree_of(s) <= n * degree_of(s)) by (nonlinear_arith)
                    requires
                        k + 1 <= n,
                ;
            }
            r = self.mul(&r);
            k += 1;
        }
        r
    }

    /// Whether two polynomials have the same terms.
    pub fn equals(&self, other: &SparsePolynomial) -> (r: bool)
        ensures
            r == (self@ == other@),
    {
        let n = self.terms.len();
        if n != other.terms.len() {
            assert(self@.len() != other@.len());
            return false;
        }
        let mut k: usize = 0;
        while k < n
            invariant
                k <= n,
                n == self.terms.len(),
                n == other.terms.len(),
                forall|i: int| 0 <= i < k ==> self@[i] == other@[i],
            decreases n - k,
        {
            let (ca, ea) = self.terms[k];
            let (cb, eb) = other.terms[k];
            if !ca.equals(&cb) || ea != eb {
                assert(self@[k as int] != other@[k as int]);
                return false;
            }
            k += 1;
        }
        assert(self@ =~= other@);
        true
    }

    /// Whether this polynomial comes before the other: by degree first, then
    /// by the first term that differs.
    pub fn less_than(&self, other: &SparsePolynomial) -> (r: bool)
        ensures
            r == poly_lt(self@, other@),
    {
        let da = self.degree();
        let db = other.degree();
        if da != db {
            return da < db;
        }
        let ghost a = self@;
        let ghost b = other@;
        let n = self.terms.len();
        let m = other.terms.len();
        let mut k: usize = 0;
        proof {
            assert(a.skip(0) =~= a);
            assert(b.skip(0) =~= b);
        }
        while k < n && k < m
            invariant
                k <= n,
                k <= m,
                n == self.terms.len(),
                m == other.terms.len(),
                a == self@,
                b == other@,
                degree_of(a) == degree_of(b),
                terms_lt(a, b) == terms_lt(a.skip(k as int), b.skip(k as int)),
            decreases n - k,
        {
            let (ca, ea) = self.terms[k];
            let (cb, eb) = other.terms[k];
            proof {
                assert(a.skip(k as int)[0] == (ca@, ea as nat));
                assert(b.skip(k as int)[0] == (cb@, eb as nat));
                assert(a.skip(k as int).skip(1) =~= a.skip(k + 1));
                assert(b.skip(k as int).skip(1) =~= b.skip(k + 1));
            }
            proof {
                let sa = a.skip(k as int);
                let sb = b.skip(k as int);
                assert(sa.len() > 0 && sb.len() > 0);
                assert(terms_lt(sa, sb) == if sa[0] == sb[0] {
                    terms_lt(sa.skip(1), sb.skip(1))
                } else {
                    term_lt(sa[0], sb[0])
                });
            }
            if !ca.equals(&cb) {
                return ca.less_than(&cb);
            }
            if ea != eb {
                return ea < eb;
            }
            k += 1;
        }
        k < m
    }
}

} // verus!
