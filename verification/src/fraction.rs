//! Fractions of an expression over a product of sparse polynomials.
//!
//! The denominator is a set of factors, held in the order of the
//! polynomials. Fractions are added over their common denominator and
//! multiplied where their denominators share no factor.

use crate::error::Error;
use crate::expression::{Expression, Other, PolyExpr, TraceExpr};
use crate::field::FieldElement;
use crate::polynomial::sparse::{
    degree_of, lemma_monomial_canonical, lemma_mul_canonical, lemma_poly_lt_order, monomial_terms,
    mul_terms, poly_lt, SparsePolynomial, Terms,
};
use vstd::prelude::*;

verus! {

/// The factors with one more: `p` is put before the first factor that comes
/// after it, unless it is among the factors already.
pub open spec fn insert_factor(s: Seq<Terms>, p: Terms) -> Seq<Terms>
    decreases s.len(),
{
    if s.len() == 0 {
        seq![p]
    } else if s[0] == p {
        s
    } else if poly_lt(p, s[0]) {
        seq![p] + s
    } else {
        seq![s[0]] + insert_factor(s.skip(1), p)
    }
}

/// The factors of `a` together with those of `b`.
pub open spec fn union_factors(a: Seq<Terms>, b: Seq<Terms>) -> Seq<Terms>
    decreases b.len(),
{
    if b.len() == 0 {
        a
    } else {
        union_factors(insert_factor(a, b[0]), b.skip(1))
    }
}

/// The factors of `a` that are not among those of `b`, in their order.
pub open spec fn difference_factors(a: Seq<Terms>, b: Seq<Terms>) -> Seq<Terms>
    decreases a.len(),
{
    if a.len() == 0 {
        Seq::empty()
    } else {
        let rest = difference_factors(a.drop_last(), b);
        if b.contains(a.last()) {
            rest
        } else {
            rest.push(a.last())
        }
    }
}

/// No factor is common to both.
pub open spec fn disjoint_factors(a: Seq<Terms>, b: Seq<Terms>) -> bool {
    forall|i: int| 0 <= i < a.len() ==> !b.contains(#[trigger] a[i])
}

/// The product of the factors, from one on.
pub open spec fn product_of(s: Seq<Terms>) -> Terms
    decreases s.len(),
{
    if s.len() == 0 {
        monomial_terms(1, 0)
    } else {
        mul_terms(product_of(s.drop_last()), s.last())
    }
}

/// The sum of the factors' degrees.
pub open spec fn factors_degree(s: Seq<Terms>) -> nat
    decreases s.len(),
{
    if s.len() == 0 {
        0
    } else {
        factors_degree(s.drop_last()) + degree_of(s.last())
    }
}

/// The first factors have no more degree in all than all the factors.
pub proof fn lemma_factors_degree_take(s: Seq<Terms>, k: int)
    requires
        0 <= k <= s.len(),
    ensures
        factors_degree(s.take(k)) <= factors_degree(s),
    decreases s.len(),
{
    if k < s.len() {
        lemma_factors_degree_take(s.drop_last(), k);
        assert(s.drop_last().take(k) =~= s.take(k));
    } else {
        assert(s.take(k) =~= s);
    }
}

/// Taking factors away does not raise the sum of the degrees.
pub proof fn lemma_difference_degree(a: Seq<Terms>, b: Seq<Terms>)
    ensures
        factors_degree(difference_factors(a, b)) <= factors_degree(a),
    decreases a.len(),
{
    if a.len() > 0 {
        lemma_difference_degree(a.drop_last(), b);
        let rest = difference_factors(a.drop_last(), b);
        if !b.contains(a.last()) {
            assert(rest.push(a.last()).drop_last() =~= rest);
        }
    }
}

/// The factors are in the order of the polynomials, each only once.
pub open spec fn increasing(s: Seq<Terms>) -> bool {
    forall|i: int, j: int| 0 <= i < j < s.len() ==> poly_lt(#[trigger] s[i], #[trigger] s[j])
}

/// A factor before factors that all come after it.
proof fn lemma_increasing_cons(p: Terms, s: Seq<Terms>)
    requires
        increasing(s),
        forall|j: int| 0 <= j < s.len() ==> poly_lt(p, #[trigger] s[j]),
    ensures
        increasing(seq![p] + s),
{
    let r = seq![p] + s;
    assert forall|i: int, j: int| 0 <= i < j < r.len() implies poly_lt(
        #[trigger] r[i],
        #[trigger] r[j],
    ) by {
        assert(r[j] == s[j - 1]);
        if i > 0 {
            assert(r[i] == s[i - 1]);
        }
    }
}

proof fn lemma_increasing_skip(s: Seq<Terms>)
    requires
        increasing(s),
        s.len() > 0,
    ensures
        increasing(s.skip(1)),
        forall|j: int| 0 <= j < s.skip(1).len() ==> poly_lt(s[0], #[trigger] s.skip(1)[j]),
{
    let r = s.skip(1);
    assert forall|i: int, j: int| 0 <= i < j < r.len() implies poly_lt(
        #[trigger] r[i],
        #[trigger] r[j],
    ) by {
        assert(r[i] == s[i + 1]);
        assert(r[j] == s[j + 1]);
    }
    assert forall|j: int| 0 <= j < r.len() implies poly_lt(s[0], #[trigger] r[j]) by {
        assert(r[j] == s[j + 1]);
    }
}

/// Putting a factor among factors that are a set keeps them a set, with the
/// factor in it.
pub proof fn lemma_insert_factor(s: Seq<Terms>, p: Terms)
    requires
        increasing(s),
    ensures
        increasing(insert_factor(s, p)),
        forall|q: Terms| #[trigger]
            insert_factor(s, p).contains(q) <==> s.contains(q) || q == p,
    decreases s.len(),
{
    let r = insert_factor(s, p);
    if s.len() == 0 {
        assert(r[0] == p);
        assert forall|q: Terms| #[trigger] r.contains(q) <==> s.contains(q) || q == p by {
            if r.contains(q) {
                let k = choose|k: int| 0 <= k < r.len() && r[k] == q;
            }
        }
    } else if s[0] == p {
        assert(s.contains(p));
    } else if poly_lt(p, s[0]) {
        assert forall|j: int| 0 <= j < s.len() implies poly_lt(p, #[trigger] s[j]) by {
            if j > 0 {
                lemma_poly_lt_order(p, s[0], s[j]);
            }
        }
        lemma_increasing_cons(p, s);
        assert forall|q: Terms| #[trigger] r.contains(q) <==> s.contains(q) || q == p by {
            if r.contains(q) {
                let k = choose|k: int| 0 <= k < r.len() && r[k] == q;
                if k > 0 {
                    assert(s[k - 1] == q);
                }
            }
            if s.contains(q) {
                let k = choose|k: int| 0 <= k < s.len() && s[k] == q;
                assert(r[k + 1] == q);
            }
            if q == p {
                assert(r[0] == q);
            }
        }
    } else {
        let rest = s.skip(1);
        let tail = insert_factor(rest, p);
        lemma_increasing_skip(s);
        lemma_insert_factor(rest, p);
        lemma_poly_lt_order(p, s[0], s[0]);
        assert(poly_lt(s[0], p));
        assert forall|j: int| 0 <= j < tail.len() implies poly_lt(s[0], #[trigger] tail[j]) by {
            assert(tail.contains(tail[j]));
            assert(tail.contains(tail[j]) <==> rest.contains(tail[j]) || tail[j] == p);
            if rest.contains(tail[j]) {
                let k = choose|k: int| 0 <= k < rest.len() && rest[k] == tail[j];
                assert(poly_lt(s[0], rest[k]));
            }
        }
        lemma_increasing_cons(s[0], tail);
        assert forall|q: Terms| #[trigger] r.contains(q) <==> s.contains(q) || q == p by {
            if r.contains(q) {
                let k = choose|k: int| 0 <= k < r.len() && r[k] == q;
                if k > 0 {
                    assert(tail[k - 1] == q);
                    assert(tail.contains(q));
                    assert(tail.contains(q) <==> rest.contains(q) || q == p);
                    if rest.contains(q) {
                        let l = choose|l: int| 0 <= l < rest.len() && rest[l] == q;
                        assert(s[l + 1] == q);
                    }
                } else {
                    assert(s[0] == q);
                }
            }
            if s.contains(q) {
                let k = choose|k: int| 0 <= k < s.len() && s[k] == q;
                if k > 0 {
                    assert(rest[k - 1] == q);
                    assert(rest.contains(q));
                    assert(tail.contains(q) <==> rest.contains(q) || q == p);
                    assert(tail.contains(q));
                    let l = choose|l: int| 0 <= l < tail.len() && tail[l] == q;
                    assert(r[l + 1] == q);
                } else {
                    assert(r[0] == q);
                }
            }
            if q == p {
                assert(tail.contains(q) <==> rest.contains(q) || q == p);
                assert(tail.contains(q));
                let l = choose|l: int| 0 <= l < tail.len() && tail[l] == q;
                assert(r[l + 1] == q);
            }
        }
    }
}

/// The union of two sets of factors is a set, of the factors of both.
pub proof fn lemma_union_factors(a: Seq<Terms>, b: Seq<Terms>)
    requires
        increasing(a),
    ensures
        increasing(union_factors(a, b)),
        forall|q: Terms| #[trigger]
            union_factors(a, b).contains(q) <==> a.contains(q) || b.contains(q),
    decreases b.len(),
{
    if b.len() > 0 {
        let next = insert_factor(a, b[0]);
        let rest = b.skip(1);
        lemma_insert_factor(a, b[0]);
        lemma_union_factors(next, rest);
        assert forall|q: Terms| #[trigger]
            union_factors(a, b).contains(q) <==> a.contains(q) || b.contains(q) by {
            assert(union_factors(a, b) == union_factors(next, rest));
            assert(union_factors(next, rest).contains(q) <==> next.contains(q) || rest.contains(q));
            assert(next.contains(q) <==> a.contains(q) || q == b[0]);
            if q == b[0] {
                assert(b.contains(q));
            }
            if rest.contains(q) {
                let k = choose|k: int| 0 <= k < rest.len() && rest[k] == q;
                assert(b[k + 1] == q);
            }
            if b.contains(q) {
                let k = choose|k: int| 0 <= k < b.len() && b[k] == q;
                if k > 0 {
                    assert(rest[k - 1] == q);
                }
            }
        }
    }
}

/// Taking factors away from a set leaves a set, of the factors that were
/// not taken away.
pub proof fn lemma_difference_factors(a: Seq<Terms>, b: Seq<Terms>)
    requires
        increasing(a),
    ensures
        increasing(difference_factors(a, b)),
        forall|q: Terms| #[trigger]
            difference_factors(a, b).contains(q) <==> a.contains(q) && !b.contains(q),
    decreases a.len(),
{
    let r = difference_factors(a, b);
    if a.len() > 0 {
        let front = a.drop_last();
        let kept = difference_factors(front, b);
        assert(increasing(front)) by {
            assert forall|i: int, j: int| 0 <= i < j < front.len() implies poly_lt(
                #[trigger] front[i],
                #[trigger] front[j],
            ) by {
                assert(front[i] == a[i]);
                assert(front[j] == a[j]);
            }
        }
        lemma_difference_factors(front, b);
        assert forall|q: Terms| #[trigger] front.contains(q) implies a.contains(q) && poly_lt(
            q,
            a.last(),
        ) by {
            let k = choose|k: int| 0 <= k < front.len() && front[k] == q;
            assert(a[k] == q);
        }
        if !b.contains(a.last()) {
            assert forall|i: int, j: int| 0 <= i < j < r.len() implies poly_lt(
                #[trigger] r[i],
                #[trigger] r[j],
            ) by {
                assert(r[i] == kept[i]);
                if j < kept.len() {
                    assert(r[j] == kept[j]);
                } else {
                    assert(kept.contains(kept[i]));
                    assert(kept.contains(kept[i]) <==> front.contains(kept[i]) && !b.contains(
                        kept[i],
                    ));
                    assert(front.contains(kept[i]));
                    assert(poly_lt(kept[i], a.last()));
                }
            }
        }
        assert forall|q: Terms| #[trigger] r.contains(q) <==> a.contains(q) && !b.contains(q) by {
            if r.contains(q) {
                let k = choose|k: int| 0 <= k < r.len() && r[k] == q;
                if k < kept.len() {
                    assert(kept[k] == q);
                    assert(kept.contains(q));
                    assert(kept.contains(q) <==> front.contains(q) && !b.contains(q));
                } else {
                    assert(a[a.len() - 1] == q);
                }
            }
            if a.contains(q) && !b.contains(q) {
                let k = choose|k: int| 0 <= k < a.len() && a[k] == q;
                if k < front.len() {
                    assert(front[k] == q);
                    assert(front.contains(q));
                    assert(kept.contains(q) <==> front.contains(q) && !b.contains(q));
                    assert(kept.contains(q));
                    let l = choose|l: int| 0 <= l < kept.len() && kept[l] == q;
                    assert(r[l] == q);
                } else {
                    assert(r[r.len() - 1] == q);
                }
            }
        }
    } else {
        assert forall|q: Terms| #[trigger] r.contains(q) <==> a.contains(q) && !b.contains(q) by {
            if r.contains(q) {
                let k = choose|k: int| 0 <= k < r.len() && r[k] == q;
            }
            if a.contains(q) {
                let k = choose|k: int| 0 <= k < a.len() && a[k] == q;
            }
        }
    }
}

/// A set of factors is held in one way only: two lists in order with the
/// same factors are the same list.
pub proof fn lemma_increasing_unique(a: Seq<Terms>, b: Seq<Terms>)
    requires
        increasing(a),
        increasing(b),
        forall|q: Terms| a.contains(q) <==> b.contains(q),
    ensures
        a == b,
    decreases a.len(),
{
    if a.len() == 0 {
        if b.len() > 0 {
            assert(b.contains(b[0]));
            let k = choose|k: int| 0 <= k < a.len() && a[k] == b[0];
        }
        assert(a =~= b);
    } else {
        assert(a.contains(a[0]));
        let k = choose|k: int| 0 <= k < b.len() && b[k] == a[0];
        assert(b.contains(b[0]));
        let l = choose|l: int| 0 <= l < a.len() && a[l] == b[0];
        if k > 0 {
            assert(poly_lt(b[0], b[k]));
            if l > 0 {
                assert(poly_lt(a[0], a[l]));
            }
            lemma_poly_lt_order(a[0], b[0], a[0]);
        }
        assert(a[0] == b[0]);
        lemma_increasing_skip(a);
        lemma_increasing_skip(b);
        let ta = a.skip(1);
        let tb = b.skip(1);
        assert forall|q: Terms| ta.contains(q) <==> tb.contains(q) by {
            lemma_poly_lt_order(a[0], q, a[0]);
            if ta.contains(q) {
                let i = choose|i: int| 0 <= i < ta.len() && ta[i] == q;
                assert(poly_lt(a[0], ta[i]));
                assert(a[i + 1] == q);
                assert(a.contains(q));
                let j = choose|j: int| 0 <= j < b.len() && b[j] == q;
                assert(tb[j - 1] == q);
            }
            if tb.contains(q) {
                let i = choose|i: int| 0 <= i < tb.len() && tb[i] == q;
                assert(poly_lt(b[0], tb[i]));
                assert(b[i + 1] == q);
                assert(b.contains(q));
                let j = choose|j: int| 0 <= j < a.len() && a[j] == q;
                assert(ta[j - 1] == q);
            }
        }
        lemma_increasing_unique(ta, tb);
        assert(a =~= seq![a[0]] + ta);
        assert(b =~= seq![b[0]] + tb);
    }
}

/// The union of two sets of factors does not depend on their order.
pub proof fn lemma_union_commutes(a: Seq<Terms>, b: Seq<Terms>)
    requires
        increasing(a),
        increasing(b),
    ensures
        union_factors(a, b) == union_factors(b, a),
{
    lemma_union_factors(a, b);
    lemma_union_factors(b, a);
    assert forall|q: Terms|
        union_factors(a, b).contains(q) <==> union_factors(b, a).contains(q) by {
        assert(union_factors(a, b).contains(q) <==> a.contains(q) || b.contains(q));
        assert(union_factors(b, a).contains(q) <==> b.contains(q) || a.contains(q));
    }
    lemma_increasing_unique(union_factors(a, b), union_factors(b, a));
}

/// What a fraction holds.
pub struct FractionView {
    pub numerator: TraceExpr,
    pub denominator: Seq<Terms>,
}

/// What a vector of polynomials holds.
pub open spec fn factors_view(v: Seq<SparsePolynomial>) -> Seq<Terms> {
    Seq::new(v.len(), |i: int| v[i]@)
}

/// An expression over a product of sparse polynomials.
#[derive(Debug)]
pub struct Fraction {
    numerator: Expression,
    denominator: Vec<SparsePolynomial>,
}

impl View for Fraction {
    type V = FractionView;

    closed spec fn view(&self) -> FractionView {
        FractionView { numerator: self.numerator@, denominator: factors_view(self.denominator@) }
    }
}

/// Whether `p` is among the factors.
fn contains_factor(factors: &Vec<SparsePolynomial>, p: &SparsePolynomial) -> (r: bool)
    ensures
        r == factors_view(factors@).contains(p@),
{
    let ghost s = factors_view(factors@);
    let mut k: usize = 0;
    while k < factors.len()
        invariant
            k <= factors.len(),
            s == factors_view(factors@),
            forall|i: int| 0 <= i < k ==> s[i] != p@,
        decreases factors.len() - k,
    {
        if factors[k].equals(p) {
            assert(s[k as int] == p@);
            return true;
        }
        k += 1;
    }
    false
}

/// Puts `p` among the factors, at its place in their order.
fn insert_into(factors: &mut Vec<SparsePolynomial>, p: SparsePolynomial)
    ensures
        factors_view(final(factors)@) == insert_factor(factors_view(old(factors)@), p@),
{
    let ghost s = factors_view(factors@);
    let n = factors.len();
    let mut k: usize = 0;
    proof {
        assert(s.skip(0) =~= s);
        assert(s.take(0) + insert_factor(s, p@) =~= insert_factor(s, p@));
    }
    let mut found = false;
    while k < n && !found
        invariant
            k <= n,
            n == factors.len(),
            factors@ == old(factors)@,
            s == factors_view(factors@),
            s.take(k as int) + insert_factor(s.skip(k as int), p@) == insert_factor(s, p@),
            found ==> k < n && s[k as int] != p@ && poly_lt(p@, s[k as int]),
        decreases n - k + if found { 0int } else { 1int },
    {
        let ghost sk = s.skip(k as int);
        proof {
            assert(sk[0] == s[k as int]);
            assert(sk.skip(1) =~= s.skip(k + 1));
        }
        if factors[k].equals(&p) {
            proof {
                assert(s.take(k as int) + sk =~= s);
            }
            return ;
        }
        if p.less_than(&factors[k]) {
            found = true;
        } else {
            proof {
                assert(s.take(k + 1) + insert_factor(s.skip(k + 1), p@) =~= s.take(k as int)
                    + insert_factor(sk, p@));
            }
            k += 1;
        }
    }
    proof {
        let sk = s.skip(k as int);
        if k < n {
            assert(sk[0] == s[k as int]);
        }
        assert(insert_factor(sk, p@) =~= seq![p@] + sk);
        assert(factors_view(factors@.insert(k as int, p)) =~= s.take(k as int) + (seq![p@]
            + sk));
    }
    factors.insert(k, p);
}

/// A copy of the factors.
fn duplicate_factors(factors: &Vec<SparsePolynomial>) -> (r: Vec<SparsePolynomial>)
    ensures
        factors_view(r@) == factors_view(factors@),
{
    let mut r: Vec<SparsePolynomial> = Vec::new();
    let mut k: usize = 0;
    while k < factors.len()
        invariant
            k <= factors.len(),
            factors_view(r@) == factors_view(factors@).take(k as int),
        decreases factors.len() - k,
    {
        let ghost before = factors_view(r@);
        r.push(factors[k].duplicate());
        proof {
            assert(factors_view(r@) =~= before.push(factors@[k as int]@));
            assert(factors_view(factors@).take(k + 1) =~= before.push(factors@[k as int]@));
        }
        k += 1;
    }
    proof {
        assert(factors_view(factors@).take(k as int) =~= factors_view(factors@));
    }
    r
}

/// The factors of `a` that are not among those of `b`.
fn difference(a: &Vec<SparsePolynomial>, b: &Vec<SparsePolynomial>) -> (r: Vec<SparsePolynomial>)
    ensures
        factors_view(r@) == difference_factors(factors_view(a@), factors_view(b@)),
{
    let ghost sa = factors_view(a@);
    let ghost sb = factors_view(b@);
    let mut r: Vec<SparsePolynomial> = Vec::new();
    let mut k: usize = 0;
    proof {
        assert(factors_view(r@) =~= difference_factors(sa.take(0), sb));
    }
    while k < a.len()
        invariant
            k <= a.len(),
            sa == factors_view(a@),
            sb == factors_view(b@),
            factors_view(r@) == difference_factors(sa.take(k as int), sb),
        decreases a.len() - k,
    {
        let ghost before = factors_view(r@);
        proof {
            assert(sa.take(k + 1).drop_last() =~= sa.take(k as int));
            assert(sa.take(k + 1).last() == a@[k as int]@);
        }
        if !contains_factor(b, &a[k]) {
            r.push(a[k].duplicate());
            proof {
                assert(factors_view(r@) =~= before.push(a@[k as int]@));
            }
        }
        k += 1;
    }
    proof {
        assert(sa.take(k as int) =~= sa);
    }
    r
}

/// The factors of `a` together with those of `b`.
fn union(a: &Vec<SparsePolynomial>, b: &Vec<SparsePolynomial>) -> (r: Vec<SparsePolynomial>)
    ensures
        factors_view(r@) == union_factors(factors_view(a@), factors_view(b@)),
{
    let ghost sa = factors_view(a@);
    let ghost sb = factors_view(b@);
    let mut r = duplicate_factors(a);
    let mut k: usize = 0;
    proof {
        assert(sb.skip(0) =~= sb);
    }
    while k < b.len()
        invariant
            k <= b.len(),
            sb == factors_view(b@),
            union_factors(factors_view(r@), sb.skip(k as int)) == union_factors(sa, sb),
        decreases b.len() - k,
    {
        proof {
            assert(sb.skip(k as int)[0] == b@[k as int]@);
            assert(sb.skip(k as int).skip(1) =~= sb.skip(k + 1));
        }
        insert_into(&mut r, b[k].duplicate());
        k += 1;
    }
    r
}

/// Whether no factor is common to both.
fn disjoint(a: &Vec<SparsePolynomial>, b: &Vec<SparsePolynomial>) -> (r: bool)
    ensures
        r == disjoint_factors(factors_view(a@), factors_view(b@)),
{
    let ghost sa = factors_view(a@);
    let ghost sb = factors_view(b@);
    let mut k: usize = 0;
    while k < a.len()
        invariant
            k <= a.len(),
            sa == factors_view(a@),
            sb == factors_view(b@),
            forall|i: int| 0 <= i < k ==> !sb.contains(#[trigger] sa[i]),
        decreases a.len() - k,
    {
        if contains_factor(b, &a[k]) {
            assert(sb.contains(sa[k as int]));
            return false;
        }
        k += 1;
    }
    true
}

/// The product of the factors.
fn product(factors: &Vec<SparsePolynomial>) -> (r: SparsePolynomial)
    requires
        factors_degree(factors_view(factors@)) <= usize::MAX,
    ensures
        r@ == product_of(factors_view(factors@)),
{
    let ghost s = factors_view(factors@);
    let mut r = SparsePolynomial::constant(FieldElement::one());
    let mut k: usize = 0;
    proof {
        lemma_monomial_canonical(1, 0);
        assert(s.take(0) =~= Seq::<Terms>::empty());
    }
    while k < factors.len()
        invariant
            k <= factors.len(),
            s == factors_view(factors@),
            factors_degree(s) <= usize::MAX,
            r@ == product_of(s.take(k as int)),
            degree_of(r@) <= factors_degree(s.take(k as int)),
        decreases factors.len() - k,
    {
        let factor = &factors[k];
        proof {
            assert(s.take(k + 1).drop_last() =~= s.take(k as int));
            assert(s.take(k + 1).last() == factor@);
            lemma_factors_degree_take(s, k + 1);
            use_type_invariant(&r);
            use_type_invariant(factor);
            lemma_mul_canonical(r@, factor@);
        }
        r = r.mul(factor);
        k += 1;
    }
    proof {
        assert(s.take(k as int) =~= s);
    }
    r
}

/// The expression that stands for the product of the factors.
pub fn from(factors: &Vec<SparsePolynomial>) -> (r: Expression)
    requires
        factors_degree(factors_view(factors@)) <= usize::MAX,
    ensures
        r@ == TraceExpr::Poly(PolyExpr::PeriodicColumn(product_of(factors_view(factors@)))),
{
    Expression::from_sparse(product(factors))
}

impl Fraction {
    /// The factors of the denominator are a set, held in their order.
    #[verifier::type_invariant]
    spec fn denominator_is_set(self) -> bool {
        increasing(self@.denominator)
    }

    /// The fraction of an expression over the product of the given factors.
    pub fn new(numerator: Expression, factors: Vec<SparsePolynomial>) -> (r: Fraction)
        ensures
            r@.numerator == numerator@,
            r@.denominator == union_factors(Seq::empty(), factors_view(factors@)),
    {
        let empty: Vec<SparsePolynomial> = Vec::new();
        let denominator = union(&empty, &factors);
        proof {
            assert(factors_view(empty@) =~= Seq::<Terms>::empty());
            lemma_union_factors(Seq::empty(), factors_view(factors@));
        }
        Fraction { numerator, denominator }
    }

    /// Zero, over the empty product.
    pub fn zero() -> (r: Fraction)
        ensures
            r@.numerator == TraceExpr::Poly(PolyExpr::Constant(0)),
            r@.denominator == Seq::<Terms>::empty(),
    {
        let r = Fraction {
            numerator: Expression::from_field(&FieldElement::zero()),
            denominator: Vec::new(),
        };
        proof {
            assert(r@.denominator =~= Seq::<Terms>::empty());
        }
        r
    }

    /// One, over the empty product.
    pub fn one() -> (r: Fraction)
        ensures
            r@.numerator == TraceExpr::Poly(PolyExpr::Constant(1)),
            r@.denominator == Seq::<Terms>::empty(),
    {
        let r = Fraction {
            numerator: Expression::from_field(&FieldElement::one()),
            denominator: Vec::new(),
        };
        proof {
            assert(r@.denominator =~= Seq::<Terms>::empty());
        }
        r
    }

    /// An expression in `X` alone, over the empty product.
    pub fn from_other(value: Other) -> (r: Fraction)
        ensures
            r@.numerator == TraceExpr::Poly(value@),
            r@.denominator == Seq::<Terms>::empty(),
    {
        let r = Fraction { numerator: Expression::from_other(value), denominator: Vec::new() };
        proof {
            assert(r@.denominator =~= Seq::<Terms>::empty());
        }
        r
    }

    /// The numerator.
    pub fn numerator(&self) -> (r: &Expression)
        ensures
            r@ == self@.numerator,
    {
        &self.numerator
    }

    /// The factors of the denominator, in their order.
    pub fn denominator(&self) -> (r: &Vec<SparsePolynomial>)
        ensures
            factors_view(r@) == self@.denominator,
            increasing(self@.denominator),
    {
        proof {
            use_type_invariant(self);
        }
        &self.denominator
    }

    /// A copy of the fraction.
    pub fn duplicate(&self) -> (r: Fraction)
        ensures
            r@ == self@,
    {
        proof {
            use_type_invariant(self);
        }
        Fraction {
            numerator: self.numerator.duplicate(),
            denominator: duplicate_factors(&self.denominator),
        }
    }

    /// Whether two fractions have the same numerator and the same factors.
    pub fn equals(&self, other: &Fraction) -> (r: bool)
        ensures
            r == (self@ == other@),
    {
        if !self.numerator.equals(&other.numerator) {
            return false;
        }
        let n = self.denominator.len();
        if n != other.denominator.len() {
            assert(self@.denominator.len() != other@.denominator.len());
            return false;
        }
        let mut k: usize = 0;
        while k < n
            invariant
                k <= n,
                n == self.denominator.len(),
                n == other.denominator.len(),
                forall|i: int| 0 <= i < k ==> self@.denominator[i] == other@.denominator[i],
            decreases n - k,
        {
            if !self.denominator[k].equals(&other.denominator[k]) {
                assert(self@.denominator[k as int] != other@.denominator[k as int]);
                return false;
            }
            k += 1;
        }
        assert(self@.denominator =~= other@.denominator);
        true
    }

    /// The sum of two fractions over their common denominator: each
    /// numerator is multiplied by the factors that only the other
    /// denominator has.
    pub fn add(&self, other: &Fraction) -> (r: Fraction)
        requires
            factors_degree(self@.denominator) <= usize::MAX,
            factors_degree(other@.denominator) <= usize::MAX,
        ensures
            r@ == sum_of(self@, other@),
    {
        proof {
            use_type_invariant(self);
            lemma_difference_degree(other@.denominator, self@.denominator);
            lemma_difference_degree(self@.denominator, other@.denominator);
            lemma_union_factors(self@.denominator, other@.denominator);
        }
        let left = self.numerator.duplicate().mul(
            from(&difference(&other.denominator, &self.denominator)),
        );
        let right = other.numerator.duplicate().mul(
            from(&difference(&self.denominator, &other.denominator)),
        );
        Fraction {
            numerator: left.add(right),
            denominator: union(&self.denominator, &other.denominator),
        }
    }

    /// Replaces the fraction by its sum with another.
    pub fn add_assign(&mut self, other: &Fraction)
        requires
            factors_degree(old(self)@.denominator) <= usize::MAX,
            factors_degree(other@.denominator) <= usize::MAX,
        ensures
            final(self)@ == sum_of(old(self)@, other@),
    {
        let sum = self.add(other);
        *self = sum;
    }

    /// Whether the two denominators share no factor.
    pub fn disjoint(&self, other: &Fraction) -> (r: bool)
        ensures
            r == disjoint_factors(self@.denominator, other@.denominator),
    {
        disjoint(&self.denominator, &other.denominator)
    }

    /// The product of two fractions; there is none where the denominators
    /// share a factor.
    pub fn mul(&self, other: &Fraction) -> (r: Result<Fraction, Error>)
        ensures
            disjoint_factors(self@.denominator, other@.denominator) ==> r.is_ok() && r.unwrap()@
                == product_of_fractions(self@, other@),
            !disjoint_factors(self@.denominator, other@.denominator) ==> r == Err::<
                Fraction,
                Error,
            >(Error::NonDisjointDenominators),
    {
        if !disjoint(&self.denominator, &other.denominator) {
            return Err(Error::NonDisjointDenominators);
        }
        proof {
            use_type_invariant(self);
            lemma_union_factors(self@.denominator, other@.denominator);
        }
        Ok(
            Fraction {
                numerator: self.numerator.duplicate().mul(other.numerator.duplicate()),
                denominator: union(&self.denominator, &other.denominator),
            },
        )
    }

    /// Replaces the fraction by its product with another; where the
    /// denominators share a factor it is left as it is.
    pub fn mul_assign(&mut self, other: &Fraction) -> (r: Result<(), Error>)
        ensures
            disjoint_factors(old(self)@.denominator, other@.denominator) ==> r.is_ok()
                && final(self)@ == product_of_fractions(old(self)@, other@),
            !disjoint_factors(old(self)@.denominator, other@.denominator) ==> r == Err::<
                (),
                Error,
            >(Error::NonDisjointDenominators) && final(self)@ == old(self)@,
    {
        match self.mul(other) {
            Ok(product) => {
                *self = product;
                Ok(())
            },
            Err(e) => Err(e),
        }
    }

    /// Divides the fraction by a polynomial: one more factor of the
    /// denominator.
    pub fn div_assign(&mut self, other: SparsePolynomial)
        ensures
            final(self)@.numerator == old(self)@.numerator,
            final(self)@.denominator == insert_factor(old(self)@.denominator, other@),
    {
        let mut denominator = duplicate_factors(&self.denominator);
        insert_into(&mut denominator, other);
        proof {
            use_type_invariant(&*self);
            lemma_insert_factor(self@.denominator, other@);
        }
        *self = Fraction { numerator: self.numerator.duplicate(), denominator };
    }
}

/// The sum of two fractions.
pub open spec fn sum_of(a: FractionView, b: FractionView) -> FractionView {
    FractionView {
        numerator: TraceExpr::Add(
            Box::new(
                TraceExpr::Mul(
                    Box::new(a.numerator),
                    Box::new(
                        TraceExpr::Poly(
                            PolyExpr::PeriodicColumn(
                                product_of(difference_factors(b.denominator, a.denominator)),
                            ),
                        ),
                    ),
                ),
            ),
            Box::new(
                TraceExpr::Mul(
                    Box::new(b.numerator),
                    Box::new(
                        TraceExpr::Poly(
                            PolyExpr::PeriodicColumn(
                                product_of(difference_factors(a.denominator, b.denominator)),
                            ),
                        ),
                    ),
                ),
            ),
        ),
        denominator: union_factors(a.denominator, b.denominator),
    }
}

/// The product of two fractions whose denominators share no factor.
pub open spec fn product_of_fractions(a: FractionView, b: FractionView) -> FractionView {
    FractionView {
        numerator: TraceExpr::Mul(Box::new(a.numerator), Box::new(b.numerator)),
        denominator: union_factors(a.denominator, b.denominator),
    }
}

} // verus!
