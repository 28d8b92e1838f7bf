//! Sums of products of trace cells with fractions as coefficients.
//!
//! A multinomial is a list of monomials. Each monomial is a product of trace
//! cells, given by their columns and row offsets in increasing order, with a
//! [`Fraction`] as its coefficient. The monomials are held in the order of
//! their cells, no two have the same cells, and none has the coefficient
//! zero.

use crate::error::Error;
use crate::expression::{Expression, Operation, Other, PolyExpr, Term, TraceExpr};
use crate::field::FieldElement;
use crate::fraction::{
    difference_factors, disjoint_factors, factors_degree, insert_factor, product_of,
    product_of_fractions, sum_of, Fraction, FractionView,
};
use crate::modular::{add_mod, modulus, mul_mod};
use crate::polynomial::sparse::{
    add_terms, monomial_terms, mul_terms, scale_terms, SparsePolynomial, Terms,
};
use vstd::prelude::*;

verus! {

/// The cells of a monomial: pairs of a column and a row offset.
pub type Indices = Seq<(nat, int)>;

/// What a monomial holds.
pub struct MonomialView {
    pub indices: Indices,
    pub coefficient: FractionView,
}

/// The order of two cells: by column, then by row offset.
pub open spec fn index_lt(s: (nat, int), t: (nat, int)) -> bool {
    s.0 < t.0 || (s.0 == t.0 && s.1 < t.1)
}

/// The lexicographic order of two lists of cells.
pub open spec fn indices_lt(a: Indices, b: Indices) -> bool
    decreases a.len(),
{
    if b.len() == 0 {
        false
    } else if a.len() == 0 {
        true
    } else if a[0] == b[0] {
        indices_lt(a.skip(1), b.skip(1))
    } else {
        index_lt(a[0], b[0])
    }
}

/// The cells of a list are in increasing order; a cell may repeat.
pub open spec fn sorted_indices(a: Indices) -> bool {
    forall|i: int, j: int| 0 <= i < j < a.len() ==> !index_lt(#[trigger] a[j], #[trigger] a[i])
}

/// The cells of a product: both lists merged in increasing order.
pub open spec fn merge_indices(a: Indices, b: Indices) -> Indices
    decreases a.len() + b.len(),
{
    if a.len() == 0 {
        b
    } else if b.len() == 0 {
        a
    } else if index_lt(b[0], a[0]) {
        seq![b[0]] + merge_indices(a, b.skip(1))
    } else {
        seq![a[0]] + merge_indices(a.skip(1), b)
    }
}

/// The multinomial with one more summand: where a monomial has the same
/// cells the coefficients are added, else the summand is put at its place in
/// the order.
pub open spec fn accumulate(m: Seq<MonomialView>, key: Indices, c: FractionView) -> Seq<
    MonomialView,
>
    decreases m.len(),
{
    if m.len() == 0 {
        seq![MonomialView { indices: key, coefficient: c }]
    } else if m[0].indices == key {
        seq![MonomialView { indices: key, coefficient: sum_of(m[0].coefficient, c) }] + m.skip(1)
    } else if indices_lt(key, m[0].indices) {
        seq![MonomialView { indices: key, coefficient: c }] + m
    } else {
        seq![m[0]] + accumulate(m.skip(1), key, c)
    }
}

/// The products of denominators that adding the summand asks for have
/// exponents within the machine's range.
pub open spec fn accumulate_fits(m: Seq<MonomialView>, key: Indices, c: FractionView) -> bool
    decreases m.len(),
{
    if m.len() == 0 {
        true
    } else if m[0].indices == key {
        factors_degree(m[0].coefficient.denominator) <= usize::MAX && factors_degree(
            c.denominator,
        ) <= usize::MAX
    } else if indices_lt(key, m[0].indices) {
        true
    } else {
        accumulate_fits(m.skip(1), key, c)
    }
}

/// The sum of two multinomials: the monomials of `b` added to `a` one by one.
pub open spec fn add_multinomials(a: Seq<MonomialView>, b: Seq<MonomialView>) -> Seq<
    MonomialView,
>
    decreases b.len(),
{
    if b.len() == 0 {
        a
    } else {
        add_multinomials(accumulate(a, b[0].indices, b[0].coefficient), b.skip(1))
    }
}

/// The products of denominators that the sum asks for have exponents
/// within the machine's range.
pub open spec fn add_fits(a: Seq<MonomialView>, b: Seq<MonomialView>) -> bool
    decreases b.len(),
{
    if b.len() == 0 {
        true
    } else {
        accumulate_fits(a, b[0].indices, b[0].coefficient) && add_fits(
            accumulate(a, b[0].indices, b[0].coefficient),
            b.skip(1),
        )
    }
}

/// `acc` with the products of one monomial and each monomial of `b`.
pub open spec fn mul_row(
    acc: Seq<MonomialView>,
    key: Indices,
    c: FractionView,
    b: Seq<MonomialView>,
) -> Seq<MonomialView>
    decreases b.len(),
{
    if b.len() == 0 {
        acc
    } else {
        mul_row(
            accumulate(
                acc,
                merge_indices(key, b[0].indices),
                product_of_fractions(c, b[0].coefficient),
            ),
            key,
            c,
            b.skip(1),
        )
    }
}

/// The same for the products of one monomial with each monomial of `b`.
pub open spec fn mul_row_fits(
    acc: Seq<MonomialView>,
    key: Indices,
    c: FractionView,
    b: Seq<MonomialView>,
) -> bool
    decreases b.len(),
{
    if b.len() == 0 {
        true
    } else {
        let k = merge_indices(key, b[0].indices);
        let p = product_of_fractions(c, b[0].coefficient);
        accumulate_fits(acc, k, p) && mul_row_fits(accumulate(acc, k, p), key, c, b.skip(1))
    }
}

/// `acc` with the products of each monomial of `a` and each of `b`.
pub open spec fn mul_rows(acc: Seq<MonomialView>, a: Seq<MonomialView>, b: Seq<MonomialView>)
    -> Seq<MonomialView>
    decreases a.len(),
{
    if a.len() == 0 {
        acc
    } else {
        mul_rows(mul_row(acc, a[0].indices, a[0].coefficient, b), a.skip(1), b)
    }
}

/// The same for the products of each monomial of `a` with each of `b`.
pub open spec fn mul_rows_fit(
    acc: Seq<MonomialView>,
    a: Seq<MonomialView>,
    b: Seq<MonomialView>,
) -> bool
    decreases a.len(),
{
    if a.len() == 0 {
        true
    } else {
        mul_row_fits(acc, a[0].indices, a[0].coefficient, b) && mul_rows_fit(
            mul_row(acc, a[0].indices, a[0].coefficient, b),
            a.skip(1),
            b,
        )
    }
}

/// The product of two multinomials: the sum of the products of their
/// monomials, pair by pair.
pub open spec fn mul_multinomials(a: Seq<MonomialView>, b: Seq<MonomialView>) -> Seq<
    MonomialView,
> {
    mul_rows(Seq::empty(), a, b)
}

/// The products of denominators that the product asks for have exponents
/// within the machine's range.
pub open spec fn mul_fits(a: Seq<MonomialView>, b: Seq<MonomialView>) -> bool {
    mul_rows_fit(Seq::empty(), a, b)
}

/// No coefficient of `a` shares a factor of its denominator with one of `b`.
pub open spec fn disjoint_multinomials(a: Seq<MonomialView>, b: Seq<MonomialView>) -> bool {
    forall|i: int, j: int|
        0 <= i < a.len() && 0 <= j < b.len() ==> disjoint_factors(
            (#[trigger] a[i]).coefficient.denominator,
            (#[trigger] b[j]).coefficient.denominator,
        )
}

/// The multinomial divided by a polynomial: each denominator gets the factor.
pub open spec fn div_multinomial(m: Seq<MonomialView>, p: Terms) -> Seq<MonomialView> {
    Seq::new(
        m.len(),
        |i: int|
            MonomialView {
                indices: m[i].indices,
                coefficient: FractionView {
                    numerator: m[i].coefficient.numerator,
                    denominator: insert_factor(m[i].coefficient.denominator, p),
                },
            },
    )
}

/// The multinomial of one monomial.
pub open spec fn single(key: Indices, c: FractionView) -> Seq<MonomialView> {
    seq![MonomialView { indices: key, coefficient: c }]
}

/// The fraction of an expression in `X` alone over the empty product.
pub open spec fn plain_fraction(p: PolyExpr) -> FractionView {
    FractionView { numerator: TraceExpr::Poly(p), denominator: Seq::empty() }
}

/// The constant minus one as a multinomial.
pub open spec fn minus_one() -> Seq<MonomialView> {
    single(Seq::empty(), plain_fraction(PolyExpr::Constant((modulus() - 1) as nat)))
}

/// The coefficient is zero: its numerator holds no trace cell and stands
/// for the polynomial without terms.
pub open spec fn zero_coefficient(c: FractionView) -> bool {
    c.numerator.trace_free() && c.numerator.reify().len() == 0
}

/// No coefficient is zero.
pub open spec fn nonzero(m: Seq<MonomialView>) -> bool {
    forall|k: int| 0 <= k < m.len() ==> !zero_coefficient((#[trigger] m[k]).coefficient)
}

/// The monomials whose coefficient is not zero, in their order.
pub open spec fn prune(m: Seq<MonomialView>) -> Seq<MonomialView>
    decreases m.len(),
{
    if m.len() == 0 {
        Seq::empty()
    } else {
        let rest = prune(m.drop_last());
        if zero_coefficient(m.last().coefficient) {
            rest
        } else {
            rest.push(m.last())
        }
    }
}

/// The sum of two multinomials: the monomials of both, the coefficients of
/// the same cells added, without those whose coefficient has become zero.
pub open spec fn sum_multinomials(a: Seq<MonomialView>, b: Seq<MonomialView>) -> Seq<
    MonomialView,
> {
    prune(add_multinomials(a, b))
}

/// The product of two multinomials, without the monomials whose coefficient
/// has become zero.
pub open spec fn product_multinomials(a: Seq<MonomialView>, b: Seq<MonomialView>) -> Seq<
    MonomialView,
> {
    prune(mul_multinomials(a, b))
}

/// Every numerator has a degree in `X` within the machine's range.
pub open spec fn numerators_fit(m: Seq<MonomialView>) -> bool {
    forall|k: int|
        0 <= k < m.len() ==> (#[trigger] m[k]).coefficient.numerator.degree(1) <= usize::MAX
}

/// Every cell of the list is among the given cells.
pub open spec fn indices_in(key: Indices, allowed: Set<(nat, int)>) -> bool {
    forall|l: int| 0 <= l < key.len() ==> allowed.contains(#[trigger] key[l])
}

/// Every cell of every monomial is among the given cells.
pub open spec fn keys_in(m: Seq<MonomialView>, allowed: Set<(nat, int)>) -> bool {
    forall|k: int| 0 <= k < m.len() ==> indices_in((#[trigger] m[k]).indices, allowed)
}

/// The cells that occur in an expression.
pub open spec fn cells_of(e: TraceExpr) -> Set<(nat, int)> {
    Set::new(|c: (nat, int)| e.reads(c.0, c.1))
}

/// Whether the cell of `column` at `offset` occurs in a monomial.
pub open spec fn multinomial_reads(m: Seq<MonomialView>, column: nat, offset: int) -> bool {
    exists|k: int| 0 <= k < m.len() && (#[trigger] m[k]).indices.contains((column, offset))
}

/// The multinomial that an expression expands to: a trace cell is a
/// monomial with coefficient one, an expression in `X` alone a coefficient
/// without cells, sums and products are expanded, and no monomial is kept
/// whose coefficient is zero.
pub open spec fn multinomial_of(e: TraceExpr) -> Seq<MonomialView>
    decreases e,
{
    match e {
        TraceExpr::Trace(i, j) => single(seq![(i, j)], plain_fraction(PolyExpr::Constant(1))),
        TraceExpr::Poly(p) => prune(single(Seq::empty(), plain_fraction(p))),
        TraceExpr::Neg(a) => product_multinomials(minus_one(), multinomial_of(*a)),
        TraceExpr::Add(a, b) => sum_multinomials(multinomial_of(*a), multinomial_of(*b)),
        TraceExpr::Mul(a, b) => product_multinomials(multinomial_of(*a), multinomial_of(*b)),
    }
}

/// The cells in increasing order: each is merged into those before it.
pub open spec fn sort_indices(s: Indices) -> Indices
    decreases s.len(),
{
    if s.len() == 0 {
        Seq::empty()
    } else {
        merge_indices(sort_indices(s.drop_last()), seq![s.last()])
    }
}

/// No cell of the list comes before `t`.
pub open spec fn cells_from(t: (nat, int), s: Indices) -> bool {
    forall|k: int| 0 <= k < s.len() ==> !index_lt(#[trigger] s[k], t)
}

/// The monomials are in the order of their cells, and no two have the same
/// cells.
pub open spec fn keys_increasing(m: Seq<MonomialView>) -> bool {
    forall|i: int, j: int|
        0 <= i < j < m.len() ==> indices_lt((#[trigger] m[i]).indices, (#[trigger] m[j]).indices)
}

/// The cells of every monomial are in increasing order.
pub open spec fn cells_sorted(m: Seq<MonomialView>) -> bool {
    forall|i: int| 0 <= i < m.len() ==> sorted_indices((#[trigger] m[i]).indices)
}

/// Every monomial comes after the cells `low`.
pub open spec fn keys_above(m: Seq<MonomialView>, low: Indices) -> bool {
    forall|k: int| 0 <= k < m.len() ==> indices_lt(low, (#[trigger] m[k]).indices)
}

/// No list of cells comes before itself.
pub proof fn lemma_indices_lt_irreflexive(a: Indices)
    ensures
        !indices_lt(a, a),
    decreases a.len(),
{
    if a.len() > 0 {
        lemma_indices_lt_irreflexive(a.skip(1));
    }
}

/// The order of lists of cells is transitive.
pub proof fn lemma_indices_lt_transitive(a: Indices, b: Indices, c: Indices)
    requires
        indices_lt(a, b),
        indices_lt(b, c),
    ensures
        indices_lt(a, c),
    decreases a.len(),
{
    if a.len() > 0 && a[0] == b[0] && b[0] == c[0] {
        lemma_indices_lt_transitive(a.skip(1), b.skip(1), c.skip(1));
    }
}

/// Of two different lists of cells one comes before the other.
pub proof fn lemma_indices_lt_total(a: Indices, b: Indices)
    requires
        a != b,
    ensures
        indices_lt(a, b) || indices_lt(b, a),
    decreases a.len(),
{
    if a.len() > 0 && b.len() > 0 && a[0] == b[0] {
        if a.skip(1) == b.skip(1) {
            assert(a =~= seq![a[0]] + a.skip(1));
            assert(b =~= seq![b[0]] + b.skip(1));
        }
        lemma_indices_lt_total(a.skip(1), b.skip(1));
    } else if a.len() == 0 && b.len() == 0 {
        assert(a =~= b);
    }
}

proof fn lemma_sorted_cons(t: (nat, int), r: Indices)
    requires
        sorted_indices(r),
        cells_from(t, r),
    ensures
        sorted_indices(seq![t] + r),
{
    let s = seq![t] + r;
    assert forall|i: int, j: int| 0 <= i < j < s.len() implies !index_lt(
        #[trigger] s[j],
        #[trigger] s[i],
    ) by {
        assert(s[j] == r[j - 1]);
        if i > 0 {
            assert(s[i] == r[i - 1]);
        }
    }
}

proof fn lemma_sorted_skip(s: Indices)
    requires
        sorted_indices(s),
        s.len() > 0,
    ensures
        sorted_indices(s.skip(1)),
        cells_from(s[0], s.skip(1)),
        cells_from(s[0], s),
{
    let r = s.skip(1);
    assert forall|i: int, j: int| 0 <= i < j < r.len() implies !index_lt(
        #[trigger] r[j],
        #[trigger] r[i],
    ) by {
        assert(r[i] == s[i + 1]);
        assert(r[j] == s[j + 1]);
    }
    assert forall|k: int| 0 <= k < r.len() implies !index_lt(#[trigger] r[k], s[0]) by {
        assert(r[k] == s[k + 1]);
    }
}

proof fn lemma_cells_from_lower(t: (nat, int), u: (nat, int), s: Indices)
    requires
        cells_from(u, s),
        !index_lt(u, t),
    ensures
        cells_from(t, s),
{
}

/// Merging two lists of cells in increasing order gives a list in
/// increasing order.
pub proof fn lemma_merge_sorted(a: Indices, b: Indices, low: (nat, int))
    requires
        sorted_indices(a),
        sorted_indices(b),
        cells_from(low, a),
        cells_from(low, b),
    ensures
        sorted_indices(merge_indices(a, b)),
        cells_from(low, merge_indices(a, b)),
    decreases a.len() + b.len(),
{
    let r = merge_indices(a, b);
    if a.len() == 0 || b.len() == 0 {
    } else if index_lt(b[0], a[0]) {
        lemma_sorted_skip(b);
        lemma_sorted_skip(a);
        lemma_cells_from_lower(b[0], a[0], a);
        lemma_merge_sorted(a, b.skip(1), b[0]);
        let rest = merge_indices(a, b.skip(1));
        lemma_sorted_cons(b[0], rest);
        assert forall|k: int| 0 <= k < r.len() implies !index_lt(#[trigger] r[k], low) by {
            if k > 0 {
                assert(r[k] == rest[k - 1]);
                assert(!index_lt(rest[k - 1], b[0]));
            }
        }
    } else {
        lemma_sorted_skip(a);
        lemma_sorted_skip(b);
        lemma_cells_from_lower(a[0], b[0], b);
        lemma_merge_sorted(a.skip(1), b, a[0]);
        let rest = merge_indices(a.skip(1), b);
        lemma_sorted_cons(a[0], rest);
        assert forall|k: int| 0 <= k < r.len() implies !index_lt(#[trigger] r[k], low) by {
            if k > 0 {
                assert(r[k] == rest[k - 1]);
                assert(!index_lt(rest[k - 1], a[0]));
            }
        }
    }
}

/// Sorting gives a list in increasing order.
pub proof fn lemma_sort_sorted(s: Indices)
    ensures
        sorted_indices(sort_indices(s)),
    decreases s.len(),
{
    if s.len() > 0 {
        lemma_sort_sorted(s.drop_last());
        lemma_merged_sorted(sort_indices(s.drop_last()), seq![s.last()]);
    }
}

/// Adding a summand that comes after `low` to monomials that do leaves
/// monomials that do.
proof fn lemma_accumulate_above(m: Seq<MonomialView>, key: Indices, c: FractionView, low: Indices)
    requires
        keys_above(m, low),
        indices_lt(low, key),
    ensures
        keys_above(accumulate(m, key, c), low),
    decreases m.len(),
{
    let r = accumulate(m, key, c);
    if m.len() == 0 {
    } else if m[0].indices == key {
        assert forall|k: int| 0 <= k < r.len() implies indices_lt(
            low,
            (#[trigger] r[k]).indices,
        ) by {
            if k > 0 {
                assert(r[k] == m[k]);
            }
        }
    } else if indices_lt(key, m[0].indices) {
        assert forall|k: int| 0 <= k < r.len() implies indices_lt(
            low,
            (#[trigger] r[k]).indices,
        ) by {
            if k > 0 {
                assert(r[k] == m[k - 1]);
            }
        }
    } else {
        let rest = m.skip(1);
        assert(keys_above(rest, low)) by {
            assert forall|k: int| 0 <= k < rest.len() implies indices_lt(
                low,
                (#[trigger] rest[k]).indices,
            ) by {
                assert(rest[k] == m[k + 1]);
            }
        }
        lemma_accumulate_above(rest, key, c, low);
        let tail = accumulate(rest, key, c);
        assert forall|k: int| 0 <= k < r.len() implies indices_lt(
            low,
            (#[trigger] r[k]).indices,
        ) by {
            if k > 0 {
                assert(r[k] == tail[k - 1]);
            } else {
                assert(r[0] == m[0]);
            }
        }
    }
}

/// Adding a summand keeps the monomials in order, each with its cells in
/// order.
pub proof fn lemma_accumulate_sorted(m: Seq<MonomialView>, key: Indices, c: FractionView)
    requires
        keys_increasing(m),
        cells_sorted(m),
        sorted_indices(key),
    ensures
        keys_increasing(accumulate(m, key, c)),
        cells_sorted(accumulate(m, key, c)),
    decreases m.len(),
{
    let r = accumulate(m, key, c);
    if m.len() == 0 {
    } else if m[0].indices == key {
        assert forall|i: int, j: int| 0 <= i < j < r.len() implies indices_lt(
            (#[trigger] r[i]).indices,
            (#[trigger] r[j]).indices,
        ) by {
            assert(r[j] == m[j]);
            assert(r[i].indices == m[i].indices);
        }
        assert forall|i: int| 0 <= i < r.len() implies sorted_indices(
            (#[trigger] r[i]).indices,
        ) by {
            assert(r[i].indices == m[i].indices);
        }
    } else if indices_lt(key, m[0].indices) {
        assert forall|i: int, j: int| 0 <= i < j < r.len() implies indices_lt(
            (#[trigger] r[i]).indices,
            (#[trigger] r[j]).indices,
        ) by {
            assert(r[j] == m[j - 1]);
            if i > 0 {
                assert(r[i] == m[i - 1]);
            } else if j > 1 {
                assert(indices_lt(m[0].indices, m[j - 1].indices));
                lemma_indices_lt_transitive(key, m[0].indices, m[j - 1].indices);
            }
        }
        assert forall|i: int| 0 <= i < r.len() implies sorted_indices(
            (#[trigger] r[i]).indices,
        ) by {
            if i > 0 {
                assert(r[i] == m[i - 1]);
            }
        }
    } else {
        let rest = m.skip(1);
        assert(keys_increasing(rest) && cells_sorted(rest) && keys_above(rest, m[0].indices)) by {
            assert forall|i: int, j: int| 0 <= i < j < rest.len() implies indices_lt(
                (#[trigger] rest[i]).indices,
                (#[trigger] rest[j]).indices,
            ) by {
                assert(rest[i] == m[i + 1]);
                assert(rest[j] == m[j + 1]);
            }
            assert forall|i: int| 0 <= i < rest.len() implies sorted_indices(
                (#[trigger] rest[i]).indices,
            ) by {
                assert(rest[i] == m[i + 1]);
            }
            assert forall|k: int| 0 <= k < rest.len() implies indices_lt(
                m[0].indices,
                (#[trigger] rest[k]).indices,
            ) by {
                assert(rest[k] == m[k + 1]);
            }
        }
        lemma_indices_lt_total(key, m[0].indices);
        lemma_accumulate_sorted(rest, key, c);
        lemma_accumulate_above(rest, key, c, m[0].indices);
        let tail = accumulate(rest, key, c);
        assert forall|i: int, j: int| 0 <= i < j < r.len() implies indices_lt(
            (#[trigger] r[i]).indices,
            (#[trigger] r[j]).indices,
        ) by {
            assert(r[j] == tail[j - 1]);
            if i > 0 {
                assert(r[i] == tail[i - 1]);
            } else {
                assert(r[0] == m[0]);
            }
        }
        assert forall|i: int| 0 <= i < r.len() implies sorted_indices(
            (#[trigger] r[i]).indices,
        ) by {
            if i > 0 {
                assert(r[i] == tail[i - 1]);
            } else {
                assert(r[0] == m[0]);
            }
        }
    }
}

proof fn lemma_sorted_rest(m: Seq<MonomialView>)
    requires
        cells_sorted(m),
        m.len() > 0,
    ensures
        cells_sorted(m.skip(1)),
        sorted_indices(m[0].indices),
{
    assert forall|i: int| 0 <= i < m.skip(1).len() implies sorted_indices(
        (#[trigger] m.skip(1)[i]).indices,
    ) by {
        assert(m.skip(1)[i] == m[i + 1]);
    }
}

/// A sum of multinomials is in order.
pub proof fn lemma_add_sorted(a: Seq<MonomialView>, b: Seq<MonomialView>)
    requires
        keys_increasing(a),
        cells_sorted(a),
        cells_sorted(b),
    ensures
        keys_increasing(add_multinomials(a, b)),
        cells_sorted(add_multinomials(a, b)),
    decreases b.len(),
{
    if b.len() > 0 {
        lemma_sorted_rest(b);
        lemma_accumulate_sorted(a, b[0].indices, b[0].coefficient);
        lemma_add_sorted(accumulate(a, b[0].indices, b[0].coefficient), b.skip(1));
    }
}

proof fn lemma_row_sorted(
    acc: Seq<MonomialView>,
    key: Indices,
    c: FractionView,
    b: Seq<MonomialView>,
)
    requires
        keys_increasing(acc),
        cells_sorted(acc),
        sorted_indices(key),
        cells_sorted(b),
    ensures
        keys_increasing(mul_row(acc, key, c, b)),
        cells_sorted(mul_row(acc, key, c, b)),
    decreases b.len(),
{
    if b.len() > 0 {
        lemma_sorted_rest(b);
        let merged = merge_indices(key, b[0].indices);
        lemma_merged_sorted(key, b[0].indices);
        let product = product_of_fractions(c, b[0].coefficient);
        lemma_accumulate_sorted(acc, merged, product);
        lemma_row_sorted(accumulate(acc, merged, product), key, c, b.skip(1));
    }
}

/// The cells of a product are in increasing order where those of the
/// factors are.
pub proof fn lemma_merged_sorted(a: Indices, b: Indices)
    requires
        sorted_indices(a),
        sorted_indices(b),
    ensures
        sorted_indices(merge_indices(a, b)),
{
    if a.len() > 0 && b.len() > 0 {
        let low = if index_lt(b[0], a[0]) {
            b[0]
        } else {
            a[0]
        };
        lemma_sorted_skip(a);
        lemma_sorted_skip(b);
        if index_lt(b[0], a[0]) {
            lemma_cells_from_lower(low, a[0], a);
        } else {
            lemma_cells_from_lower(low, b[0], b);
        }
        lemma_merge_sorted(a, b, low);
    }
}

proof fn lemma_rows_sorted(acc: Seq<MonomialView>, a: Seq<MonomialView>, b: Seq<MonomialView>)
    requires
        keys_increasing(acc),
        cells_sorted(acc),
        cells_sorted(a),
        cells_sorted(b),
    ensures
        keys_increasing(mul_rows(acc, a, b)),
        cells_sorted(mul_rows(acc, a, b)),
    decreases a.len(),
{
    if a.len() > 0 {
        lemma_sorted_rest(a);
        lemma_row_sorted(acc, a[0].indices, a[0].coefficient, b);
        lemma_rows_sorted(mul_row(acc, a[0].indices, a[0].coefficient, b), a.skip(1), b);
    }
}

/// A product of multinomials is in order.
pub proof fn lemma_mul_sorted(a: Seq<MonomialView>, b: Seq<MonomialView>)
    requires
        cells_sorted(a),
        cells_sorted(b),
    ensures
        keys_increasing(mul_multinomials(a, b)),
        cells_sorted(mul_multinomials(a, b)),
{
    lemma_rows_sorted(Seq::empty(), a, b);
}

/// The multinomial of an expression is in canonical form: its monomials are
/// in the order of their cells, no two have the same cells, and the cells
/// of each are in increasing order.
pub proof fn lemma_multinomial_sorted(e: TraceExpr)
    ensures
        keys_increasing(multinomial_of(e)),
        cells_sorted(multinomial_of(e)),
    decreases e,
{
    match e {
        TraceExpr::Trace(i, j) => {},
        TraceExpr::Poly(p) => {
            lemma_prune_keeps(single(Seq::empty(), plain_fraction(p)));
        },
        TraceExpr::Neg(a) => {
            lemma_multinomial_sorted(*a);
            lemma_mul_sorted(minus_one(), multinomial_of(*a));
            lemma_prune_keeps(mul_multinomials(minus_one(), multinomial_of(*a)));
        },
        TraceExpr::Add(a, b) => {
            lemma_multinomial_sorted(*a);
            lemma_multinomial_sorted(*b);
            lemma_add_sorted(multinomial_of(*a), multinomial_of(*b));
            lemma_prune_keeps(add_multinomials(multinomial_of(*a), multinomial_of(*b)));
        },
        TraceExpr::Mul(a, b) => {
            lemma_multinomial_sorted(*a);
            lemma_multinomial_sorted(*b);
            lemma_mul_sorted(multinomial_of(*a), multinomial_of(*b));
            lemma_prune_keeps(mul_multinomials(multinomial_of(*a), multinomial_of(*b)));
        },
    }
}

/// What is left after the zero coefficients are taken out was there before,
/// and none of it is zero.
pub proof fn lemma_prune_members(m: Seq<MonomialView>)
    ensures
        prune(m).len() <= m.len(),
        forall|j: int|
            0 <= j < prune(m).len() ==> m.contains(#[trigger] prune(m)[j]) && !zero_coefficient(
                prune(m)[j].coefficient,
            ),
    decreases m.len(),
{
    if m.len() > 0 {
        let front = m.drop_last();
        let rest = prune(front);
        let pruned = prune(m);
        lemma_prune_members(front);
        assert forall|j: int| 0 <= j < pruned.len() implies m.contains(#[trigger] pruned[j])
            && !zero_coefficient(pruned[j].coefficient) by {
            if j < rest.len() {
                assert(pruned[j] == rest[j]);
                assert(front.contains(rest[j]));
                let i = choose|i: int| 0 <= i < front.len() && front[i] == rest[j];
                assert(m[i] == rest[j]);
            } else {
                assert(pruned[j] == m[m.len() - 1]);
            }
        }
    }
}

/// Taking the zero coefficients out keeps the order of the monomials and of
/// their cells, leaves no zero coefficient, and changes nothing where there
/// was none.
pub proof fn lemma_prune_keeps(m: Seq<MonomialView>)
    ensures
        keys_increasing(m) ==> keys_increasing(prune(m)),
        cells_sorted(m) ==> cells_sorted(prune(m)),
        nonzero(prune(m)),
        nonzero(m) ==> prune(m) == m,
    decreases m.len(),
{
    let pruned = prune(m);
    lemma_prune_members(m);
    if cells_sorted(m) {
        assert forall|j: int| 0 <= j < pruned.len() implies sorted_indices(
            (#[trigger] pruned[j]).indices,
        ) by {
            assert(m.contains(pruned[j]));
            let i = choose|i: int| 0 <= i < m.len() && m[i] == pruned[j];
            assert(sorted_indices(m[i].indices));
        }
    }
    if m.len() > 0 {
        let front = m.drop_last();
        let rest = prune(front);
        lemma_prune_keeps(front);
        lemma_prune_members(front);
        if keys_increasing(m) {
            assert(keys_increasing(front)) by {
                assert forall|i: int, j: int| 0 <= i < j < front.len() implies indices_lt(
                    (#[trigger] front[i]).indices,
                    (#[trigger] front[j]).indices,
                ) by {
                    assert(front[i] == m[i]);
                    assert(front[j] == m[j]);
                }
            }
            assert forall|i: int, j: int| 0 <= i < j < pruned.len() implies indices_lt(
                (#[trigger] pruned[i]).indices,
                (#[trigger] pruned[j]).indices,
            ) by {
                assert(pruned[i] == rest[i]);
                if j < rest.len() {
                    assert(pruned[j] == rest[j]);
                } else {
                    assert(pruned[j] == m[m.len() - 1]);
                    assert(front.contains(rest[i]));
                    let k = choose|k: int| 0 <= k < front.len() && front[k] == rest[i];
                    assert(m[k] == rest[i]);
                }
            }
        }
        if nonzero(m) {
            assert(nonzero(front)) by {
                assert forall|k: int| 0 <= k < front.len() implies !zero_coefficient(
                    (#[trigger] front[k]).coefficient,
                ) by {
                    assert(front[k] == m[k]);
                }
            }
            assert(!zero_coefficient(m[m.len() - 1].coefficient));
            assert(pruned =~= m);
        }
    } else {
        assert(pruned =~= m);
    }
}

/// Taking the zero coefficients out of a plain multinomial leaves a plain
/// one.
pub proof fn lemma_prune_plain(m: Seq<MonomialView>, d: nat)
    requires
        plain(m, d),
    ensures
        plain(prune(m), d),
{
    let pruned = prune(m);
    lemma_prune_members(m);
    assert forall|j: int| 0 <= j < pruned.len() implies plain_coefficient(
        (#[trigger] pruned[j]).coefficient,
        d,
    ) by {
        assert(m.contains(pruned[j]));
        let i = choose|i: int| 0 <= i < m.len() && m[i] == pruned[j];
        assert(plain_coefficient(m[i].coefficient, d));
    }
}

/// Taking the zero coefficients out leaves the cells among those they were
/// among.
pub proof fn lemma_prune_in(m: Seq<MonomialView>, allowed: Set<(nat, int)>)
    requires
        keys_in(m, allowed),
    ensures
        keys_in(prune(m), allowed),
{
    let pruned = prune(m);
    lemma_prune_members(m);
    assert forall|j: int| 0 <= j < pruned.len() implies indices_in(
        (#[trigger] pruned[j]).indices,
        allowed,
    ) by {
        assert(m.contains(pruned[j]));
        let i = choose|i: int| 0 <= i < m.len() && m[i] == pruned[j];
        assert(indices_in(m[i].indices, allowed));
    }
}

proof fn lemma_merge_in(a: Indices, b: Indices, allowed: Set<(nat, int)>)
    requires
        indices_in(a, allowed),
        indices_in(b, allowed),
    ensures
        indices_in(merge_indices(a, b), allowed),
    decreases a.len() + b.len(),
{
    let r = merge_indices(a, b);
    if a.len() == 0 || b.len() == 0 {
    } else if index_lt(b[0], a[0]) {
        let rest = b.skip(1);
        assert(indices_in(rest, allowed)) by {
            assert forall|l: int| 0 <= l < rest.len() implies allowed.contains(
                #[trigger] rest[l],
            ) by {
                assert(rest[l] == b[l + 1]);
            }
        }
        lemma_merge_in(a, rest, allowed);
        let tail = merge_indices(a, rest);
        assert forall|l: int| 0 <= l < r.len() implies allowed.contains(#[trigger] r[l]) by {
            if l > 0 {
                assert(r[l] == tail[l - 1]);
            } else {
                assert(r[0] == b[0]);
            }
        }
    } else {
        let rest = a.skip(1);
        assert(indices_in(rest, allowed)) by {
            assert forall|l: int| 0 <= l < rest.len() implies allowed.contains(
                #[trigger] rest[l],
            ) by {
                assert(rest[l] == a[l + 1]);
            }
        }
        lemma_merge_in(rest, b, allowed);
        let tail = merge_indices(rest, b);
        assert forall|l: int| 0 <= l < r.len() implies allowed.contains(#[trigger] r[l]) by {
            if l > 0 {
                assert(r[l] == tail[l - 1]);
            } else {
                assert(r[0] == a[0]);
            }
        }
    }
}

proof fn lemma_keys_in_skip(m: Seq<MonomialView>, allowed: Set<(nat, int)>)
    requires
        keys_in(m, allowed),
        m.len() > 0,
    ensures
        keys_in(m.skip(1), allowed),
        indices_in(m[0].indices, allowed),
{
    let rest = m.skip(1);
    assert forall|k: int| 0 <= k < rest.len() implies indices_in(
        (#[trigger] rest[k]).indices,
        allowed,
    ) by {
        assert(rest[k] == m[k + 1]);
    }
}

proof fn lemma_accumulate_in(
    m: Seq<MonomialView>,
    key: Indices,
    c: FractionView,
    allowed: Set<(nat, int)>,
)
    requires
        keys_in(m, allowed),
        indices_in(key, allowed),
    ensures
        keys_in(accumulate(m, key, c), allowed),
    decreases m.len(),
{
    let r = accumulate(m, key, c);
    if m.len() == 0 {
    } else if m[0].indices == key {
        assert forall|k: int| 0 <= k < r.len() implies indices_in(
            (#[trigger] r[k]).indices,
            allowed,
        ) by {
            if k > 0 {
                assert(r[k] == m[k]);
            }
        }
    } else if indices_lt(key, m[0].indices) {
        assert forall|k: int| 0 <= k < r.len() implies indices_in(
            (#[trigger] r[k]).indices,
            allowed,
        ) by {
            if k > 0 {
                assert(r[k] == m[k - 1]);
            }
        }
    } else {
        lemma_keys_in_skip(m, allowed);
        lemma_accumulate_in(m.skip(1), key, c, allowed);
        let tail = accumulate(m.skip(1), key, c);
        assert forall|k: int| 0 <= k < r.len() implies indices_in(
            (#[trigger] r[k]).indices,
            allowed,
        ) by {
            if k > 0 {
                assert(r[k] == tail[k - 1]);
            } else {
                assert(r[0] == m[0]);
            }
        }
    }
}

proof fn lemma_add_in(a: Seq<MonomialView>, b: Seq<MonomialView>, allowed: Set<(nat, int)>)
    requires
        keys_in(a, allowed),
        keys_in(b, allowed),
    ensures
        keys_in(add_multinomials(a, b), allowed),
    decreases b.len(),
{
    if b.len() > 0 {
        lemma_keys_in_skip(b, allowed);
        lemma_accumulate_in(a, b[0].indices, b[0].coefficient, allowed);
        lemma_add_in(accumulate(a, b[0].indices, b[0].coefficient), b.skip(1), allowed);
    }
}

proof fn lemma_row_in(
    acc: Seq<MonomialView>,
    key: Indices,
    c: FractionView,
    b: Seq<MonomialView>,
    allowed: Set<(nat, int)>,
)
    requires
        keys_in(acc, allowed),
        indices_in(key, allowed),
        keys_in(b, allowed),
    ensures
        keys_in(mul_row(acc, key, c, b), allowed),
    decreases b.len(),
{
    if b.len() > 0 {
        lemma_keys_in_skip(b, allowed);
        let merged = merge_indices(key, b[0].indices);
        lemma_merge_in(key, b[0].indices, allowed);
        let product = product_of_fractions(c, b[0].coefficient);
        lemma_accumulate_in(acc, merged, product, allowed);
        lemma_row_in(accumulate(acc, merged, product), key, c, b.skip(1), allowed);
    }
}

proof fn lemma_rows_in(
    acc: Seq<MonomialView>,
    a: Seq<MonomialView>,
    b: Seq<MonomialView>,
    allowed: Set<(nat, int)>,
)
    requires
        keys_in(acc, allowed),
        keys_in(a, allowed),
        keys_in(b, allowed),
    ensures
        keys_in(mul_rows(acc, a, b), allowed),
    decreases a.len(),
{
    if a.len() > 0 {
        lemma_keys_in_skip(a, allowed);
        lemma_row_in(acc, a[0].indices, a[0].coefficient, b, allowed);
        lemma_rows_in(mul_row(acc, a[0].indices, a[0].coefficient, b), a.skip(1), b, allowed);
    }
}

proof fn lemma_keys_in_widen(
    m: Seq<MonomialView>,
    allowed: Set<(nat, int)>,
    wider: Set<(nat, int)>,
)
    requires
        keys_in(m, allowed),
        allowed.subset_of(wider),
    ensures
        keys_in(m, wider),
{
    assert forall|k: int| 0 <= k < m.len() implies indices_in(
        (#[trigger] m[k]).indices,
        wider,
    ) by {
        assert(indices_in(m[k].indices, allowed));
    }
}

/// The cells of the multinomial of an expression occur in the expression.
pub proof fn lemma_multinomial_reads(e: TraceExpr)
    ensures
        keys_in(multinomial_of(e), cells_of(e)),
    decreases e,
{
    let allowed = cells_of(e);
    let none = Seq::<MonomialView>::empty();
    match e {
        TraceExpr::Trace(i, j) => {
            assert(allowed.contains((i, j)));
        },
        TraceExpr::Poly(p) => {
            lemma_prune_in(single(Seq::empty(), plain_fraction(p)), allowed);
        },
        TraceExpr::Neg(a) => {
            lemma_multinomial_reads(*a);
            assert(cells_of(*a).subset_of(allowed));
            lemma_keys_in_widen(multinomial_of(*a), cells_of(*a), allowed);
            lemma_rows_in(none, minus_one(), multinomial_of(*a), allowed);
            lemma_prune_in(mul_multinomials(minus_one(), multinomial_of(*a)), allowed);
        },
        TraceExpr::Add(a, b) => {
            lemma_multinomial_reads(*a);
            lemma_multinomial_reads(*b);
            assert(cells_of(*a).subset_of(allowed));
            assert(cells_of(*b).subset_of(allowed));
            lemma_keys_in_widen(multinomial_of(*a), cells_of(*a), allowed);
            lemma_keys_in_widen(multinomial_of(*b), cells_of(*b), allowed);
            lemma_add_in(multinomial_of(*a), multinomial_of(*b), allowed);
            lemma_prune_in(add_multinomials(multinomial_of(*a), multinomial_of(*b)), allowed);
        },
        TraceExpr::Mul(a, b) => {
            lemma_multinomial_reads(*a);
            lemma_multinomial_reads(*b);
            assert(cells_of(*a).subset_of(allowed));
            assert(cells_of(*b).subset_of(allowed));
            lemma_keys_in_widen(multinomial_of(*a), cells_of(*a), allowed);
            lemma_keys_in_widen(multinomial_of(*b), cells_of(*b), allowed);
            lemma_rows_in(none, multinomial_of(*a), multinomial_of(*b), allowed);
            lemma_prune_in(mul_multinomials(multinomial_of(*a), multinomial_of(*b)), allowed);
        },
    }
}

/// No coefficient of the multinomial of an expression is zero.
pub proof fn lemma_multinomial_nonzero(e: TraceExpr)
    ensures
        nonzero(multinomial_of(e)),
{
    match e {
        TraceExpr::Trace(i, j) => {
            lemma_one_is_not_zero();
        },
        TraceExpr::Poly(p) => {
            lemma_prune_keeps(single(Seq::empty(), plain_fraction(p)));
        },
        TraceExpr::Neg(a) => {
            lemma_prune_keeps(mul_multinomials(minus_one(), multinomial_of(*a)));
        },
        TraceExpr::Add(a, b) => {
            lemma_prune_keeps(add_multinomials(multinomial_of(*a), multinomial_of(*b)));
        },
        TraceExpr::Mul(a, b) => {
            lemma_prune_keeps(mul_multinomials(multinomial_of(*a), multinomial_of(*b)));
        },
    }
}

/// The coefficients one and minus one are not zero.
pub proof fn lemma_one_is_not_zero()
    ensures
        !zero_coefficient(plain_fraction(PolyExpr::Constant(1))),
        !zero_coefficient(plain_fraction(PolyExpr::Constant((modulus() - 1) as nat))),
        nonzero(minus_one()),
{
    crate::modular::lemma_modulus_positive();
    crate::modular::lemma_small(1);
    crate::modular::lemma_small((modulus() - 1) as nat);
    let one = plain_fraction(PolyExpr::Constant(1));
    let sign = plain_fraction(PolyExpr::Constant((modulus() - 1) as nat));
    assert(one.numerator.reify() == crate::polynomial::sparse::monomial_terms(1, 0));
    assert(sign.numerator.reify() == crate::polynomial::sparse::monomial_terms(
        (modulus() - 1) as nat,
        0,
    ));
    assert(one.numerator.reify().len() == 1);
    assert(sign.numerator.reify().len() == 1);
}

/// What a vector of cells holds.
pub open spec fn indices_view(v: Seq<(usize, isize)>) -> Indices {
    Seq::new(v.len(), |i: int| (v[i].0 as nat, v[i].1 as int))
}

/// A product of trace cells with its coefficient.
#[derive(Debug)]
pub struct Monomial {
    indices: Vec<(usize, isize)>,
    coefficient: Fraction,
}

impl View for Monomial {
    type V = MonomialView;

    closed spec fn view(&self) -> MonomialView {
        MonomialView { indices: indices_view(self.indices@), coefficient: self.coefficient@ }
    }
}

/// What a vector of monomials holds.
pub open spec fn monomials_view(v: Seq<Monomial>) -> Seq<MonomialView> {
    Seq::new(v.len(), |i: int| v[i]@)
}

/// A sum of monomials, in the order of their cells; none has the
/// coefficient zero.
#[derive(Debug)]
pub struct TraceMultinomial {
    entries: Vec<Monomial>,
}

impl View for TraceMultinomial {
    type V = Seq<MonomialView>;

    closed spec fn view(&self) -> Seq<MonomialView> {
        monomials_view(self.entries@)
    }
}

fn duplicate_indices(v: &Vec<(usize, isize)>) -> (r: Vec<(usize, isize)>)
    ensures
        r@ == v@,
{
    let mut r: Vec<(usize, isize)> = Vec::new();
    let mut k: usize = 0;
    while k < v.len()
        invariant
            k <= v.len(),
            r@ == v@.take(k as int),
        decreases v.len() - k,
    {
        r.push(v[k]);
        proof {
            assert(v@.take(k + 1) =~= v@.take(k as int).push(v@[k as int]));
        }
        k += 1;
    }
    proof {
        assert(v@.take(k as int) =~= v@);
    }
    r
}

fn indices_equal(a: &Vec<(usize, isize)>, b: &Vec<(usize, isize)>) -> (r: bool)
    ensures
        r == (indices_view(a@) == indices_view(b@)),
{
    let n = a.len();
    if n != b.len() {
        assert(indices_view(a@).len() != indices_view(b@).len());
        return false;
    }
    let mut k: usize = 0;
    while k < n
        invariant
            k <= n,
            n == a.len(),
            n == b.len(),
            forall|i: int| 0 <= i < k ==> indices_view(a@)[i] == indices_view(b@)[i],
        decreases n - k,
    {
        let (ia, ja) = a[k];
        let (ib, jb) = b[k];
        if ia != ib || ja != jb {
            assert(indices_view(a@)[k as int] != indices_view(b@)[k as int]);
            return false;
        }
        k += 1;
    }
    assert(indices_view(a@) =~= indices_view(b@));
    true
}

fn indices_less(a: &Vec<(usize, isize)>, b: &Vec<(usize, isize)>) -> (r: bool)
    ensures
        r == indices_lt(indices_view(a@), indices_view(b@)),
{
    let ghost sa = indices_view(a@);
    let ghost sb = indices_view(b@);
    let n = a.len();
    let m = b.len();
    let mut k: usize = 0;
    proof {
        assert(sa.skip(0) =~= sa);
        assert(sb.skip(0) =~= sb);
    }
    while k < n && k < m
        invariant
            k <= n,
            k <= m,
            n == a.len(),
            m == b.len(),
            sa == indices_view(a@),
            sb == indices_view(b@),
            indices_lt(sa, sb) == indices_lt(sa.skip(k as int), sb.skip(k as int)),
        decreases n - k,
    {
        let (ia, ja) = a[k];
        let (ib, jb) = b[k];
        proof {
            let ta = sa.skip(k as int);
            let tb = sb.skip(k as int);
            assert(ta[0] == (ia as nat, ja as int));
            assert(tb[0] == (ib as nat, jb as int));
            assert(ta.skip(1) =~= sa.skip(k + 1));
            assert(tb.skip(1) =~= sb.skip(k + 1));
        }
        if ia != ib {
            return ia < ib;
        }
        if ja != jb {
            return ja < jb;
        }
        k += 1;
    }
    k < m
}

/// The cells of both lists, merged in increasing order.
fn merge(a: &Vec<(usize, isize)>, b: &Vec<(usize, isize)>) -> (r: Vec<(usize, isize)>)
    ensures
        indices_view(r@) == merge_indices(indices_view(a@), indices_view(b@)),
{
    let ghost sa = indices_view(a@);
    let ghost sb = indices_view(b@);
    let n = a.len();
    let m = b.len();
    let mut out: Vec<(usize, isize)> = Vec::new();
    let mut i: usize = 0;
    let mut j: usize = 0;
    proof {
        assert(sa.skip(0) =~= sa);
        assert(sb.skip(0) =~= sb);
        assert(indices_view(out@) + merge_indices(sa, sb) =~= merge_indices(sa, sb));
    }
    while i < n && j < m
        invariant
            i <= n,
            j <= m,
            n == a.len(),
            m == b.len(),
            sa == indices_view(a@),
            sb == indices_view(b@),
            indices_view(out@) + merge_indices(sa.skip(i as int), sb.skip(j as int))
                == merge_indices(sa, sb),
        decreases (n - i) + (m - j),
    {
        let (ia, ja) = a[i];
        let (ib, jb) = b[j];
        let ghost before = indices_view(out@);
        let ghost ta = sa.skip(i as int);
        let ghost tb = sb.skip(j as int);
        proof {
            assert(ta[0] == (ia as nat, ja as int));
            assert(tb[0] == (ib as nat, jb as int));
            assert(ta.skip(1) =~= sa.skip(i + 1));
            assert(tb.skip(1) =~= sb.skip(j + 1));
        }
        if ib < ia || (ib == ia && jb < ja) {
            out.push((ib, jb));
            j += 1;
        } else {
            out.push((ia, ja));
            i += 1;
        }
        proof {
            assert(indices_view(out@) + merge_indices(sa.skip(i as int), sb.skip(j as int))
                =~= before + merge_indices(ta, tb));
        }
    }
    proof {
        assert(merge_indices(sa.skip(i as int), sb.skip(j as int)) =~= sa.skip(i as int)
            + sb.skip(j as int));
    }
    while i < n
        invariant
            i <= n,
            j <= m,
            i == n || j == m,
            n == a.len(),
            m == b.len(),
            sa == indices_view(a@),
            sb == indices_view(b@),
            indices_view(out@) + (sa.skip(i as int) + sb.skip(j as int)) == merge_indices(
                sa,
                sb,
            ),
        decreases n - i,
    {
        let ghost before = indices_view(out@);
        out.push(a[i]);
        i += 1;
        proof {
            assert(indices_view(out@) + (sa.skip(i as int) + sb.skip(j as int)) =~= before + (
            sa.skip(i - 1) + sb.skip(j as int)));
        }
    }
    while j < m
        invariant
            i == n,
            j <= m,
            n == a.len(),
            m == b.len(),
            sa == indices_view(a@),
            sb == indices_view(b@),
            indices_view(out@) + (sa.skip(i as int) + sb.skip(j as int)) == merge_indices(
                sa,
                sb,
            ),
        decreases m - j,
    {
        let ghost before = indices_view(out@);
        out.push(b[j]);
        j += 1;
        proof {
            assert(indices_view(out@) + (sa.skip(i as int) + sb.skip(j as int)) =~= before + (
            sa.skip(i as int) + sb.skip(j - 1)));
        }
    }
    proof {
        assert(indices_view(out@) =~= merge_indices(sa, sb));
    }
    out
}

/// The cells in increasing order.
fn sort(indices: &Vec<(usize, isize)>) -> (r: Vec<(usize, isize)>)
    ensures
        indices_view(r@) == sort_indices(indices_view(indices@)),
{
    let ghost s = indices_view(indices@);
    let mut r: Vec<(usize, isize)> = Vec::new();
    let mut k: usize = 0;
    proof {
        assert(s.take(0) =~= Seq::<(nat, int)>::empty());
        assert(indices_view(r@) =~= Seq::<(nat, int)>::empty());
    }
    while k < indices.len()
        invariant
            k <= indices.len(),
            s == indices_view(indices@),
            indices_view(r@) == sort_indices(s.take(k as int)),
        decreases indices.len() - k,
    {
        let mut one: Vec<(usize, isize)> = Vec::new();
        one.push(indices[k]);
        proof {
            assert(s.take(k + 1).drop_last() =~= s.take(k as int));
            assert(s.take(k + 1).last() == s[k as int]);
            assert(indices_view(one@) =~= seq![s[k as int]]);
        }
        r = merge(&r, &one);
        k += 1;
    }
    proof {
        assert(s.take(k as int) =~= s);
    }
    r
}

/// A copy of the monomials.
fn duplicate_monomials(entries: &Vec<Monomial>) -> (r: Vec<Monomial>)
    ensures
        monomials_view(r@) == monomials_view(entries@),
{
    let ghost m = monomials_view(entries@);
    let mut r: Vec<Monomial> = Vec::new();
    let mut k: usize = 0;
    while k < entries.len()
        invariant
            k <= entries.len(),
            m == monomials_view(entries@),
            monomials_view(r@) == m.take(k as int),
        decreases entries.len() - k,
    {
        let ghost before = monomials_view(r@);
        let copy = Monomial {
            indices: duplicate_indices(&entries[k].indices),
            coefficient: entries[k].coefficient.duplicate(),
        };
        r.push(copy);
        proof {
            assert(monomials_view(r@) =~= before.push(m[k as int]));
            assert(m.take(k + 1) =~= before.push(m[k as int]));
        }
        k += 1;
    }
    proof {
        assert(m.take(k as int) =~= m);
    }
    r
}

/// The monomials whose coefficient is not zero.
fn prune_monomials(entries: &Vec<Monomial>) -> (r: Vec<Monomial>)
    requires
        numerators_fit(monomials_view(entries@)),
    ensures
        monomials_view(r@) == prune(monomials_view(entries@)),
{
    let ghost m = monomials_view(entries@);
    let mut r: Vec<Monomial> = Vec::new();
    let mut k: usize = 0;
    proof {
        assert(m.take(0) =~= Seq::<MonomialView>::empty());
        assert(monomials_view(r@) =~= Seq::<MonomialView>::empty());
    }
    while k < entries.len()
        invariant
            k <= entries.len(),
            m == monomials_view(entries@),
            numerators_fit(m),
            monomials_view(r@) == prune(m.take(k as int)),
        decreases entries.len() - k,
    {
        let ghost before = monomials_view(r@);
        proof {
            assert(m.take(k + 1).drop_last() =~= m.take(k as int));
            assert(m.take(k + 1).last() == m[k as int]);
            assert(m[k as int].coefficient.numerator.degree(1) <= usize::MAX);
        }
        let vanishes = match entries[k].coefficient.numerator().to_sparse() {
            Ok(p) => p.len() == 0,
            Err(_) => false,
        };
        if !vanishes {
            let copy = Monomial {
                indices: duplicate_indices(&entries[k].indices),
                coefficient: entries[k].coefficient.duplicate(),
            };
            r.push(copy);
            proof {
                assert(monomials_view(r@) =~= before.push(m[k as int]));
            }
        }
        k += 1;
    }
    proof {
        assert(m.take(k as int) =~= m);
    }
    r
}

/// Adds one summand to the monomials.
fn accumulate_into(entries: &mut Vec<Monomial>, key: Vec<(usize, isize)>, c: Fraction)
    requires
        accumulate_fits(monomials_view(old(entries)@), indices_view(key@), c@),
    ensures
        monomials_view(final(entries)@) == accumulate(
            monomials_view(old(entries)@),
            indices_view(key@),
            c@,
        ),
{
    let ghost s = monomials_view(entries@);
    let ghost kv = indices_view(key@);
    let n = entries.len();
    let mut k: usize = 0;
    let mut found = false;
    proof {
        assert(s.skip(0) =~= s);
        assert(s.take(0) + accumulate(s, kv, c@) =~= accumulate(s, kv, c@));
    }
    while k < n && !found
        invariant
            k <= n,
            n == entries.len(),
            entries@ == old(entries)@,
            s == monomials_view(entries@),
            kv == indices_view(key@),
            s.take(k as int) + accumulate(s.skip(k as int), kv, c@) == accumulate(s, kv, c@),
            accumulate_fits(s.skip(k as int), kv, c@),
            found ==> k < n && (s[k as int].indices == kv || indices_lt(kv, s[k as int].indices)),
        decreases n - k + if found {
            0int
        } else {
            1int
        },
    {
        let ghost sk = s.skip(k as int);
        proof {
            assert(sk[0] == s[k as int]);
            assert(sk.skip(1) =~= s.skip(k + 1));
        }
        if indices_equal(&entries[k].indices, &key) || indices_less(&key, &entries[k].indices) {
            found = true;
        } else {
            proof {
                assert(s.take(k + 1) + accumulate(s.skip(k + 1), kv, c@) =~= s.take(k as int)
                    + accumulate(sk, kv, c@));
            }
            k += 1;
        }
    }
    let ghost sk = s.skip(k as int);
    if k < n && indices_equal(&entries[k].indices, &key) {
        proof {
            assert(sk[0] == s[k as int]);
            assert(sk.skip(1) =~= s.skip(k + 1));
        }
        let sum = entries[k].coefficient.add(&c);
        let replaced = Monomial { indices: key, coefficient: sum };
        proof {
            assert(monomials_view(entries@.update(k as int, replaced)) =~= s.take(k as int) + (
            seq![replaced@] + s.skip(k + 1)));
        }
        entries.set(k, replaced);
    } else {
        let added = Monomial { indices: key, coefficient: c };
        proof {
            if k < n {
                assert(sk[0] == s[k as int]);
            }
            assert(accumulate(sk, kv, c@) =~= seq![added@] + sk);
            assert(monomials_view(entries@.insert(k as int, added)) =~= s.take(k as int) + (
            seq![added@] + sk));
        }
        entries.insert(k, added);
    }
}

impl Monomial {
    /// The cells of the monomial, in increasing order.
    pub fn indices(&self) -> (r: &Vec<(usize, isize)>)
        ensures
            indices_view(r@) == self@.indices,
    {
        &self.indices
    }

    /// The coefficient of the monomial.
    pub fn coefficient(&self) -> (r: &Fraction)
        ensures
            r@ == self@.coefficient,
    {
        &self.coefficient
    }
}

impl TraceMultinomial {
    /// The monomials are in the order of their cells, no two have the same
    /// cells, the cells of each are in increasing order, and no coefficient
    /// is zero.
    #[verifier::type_invariant]
    spec fn in_order(self) -> bool {
        keys_increasing(self@) && cells_sorted(self@) && nonzero(self@)
    }

    /// The multinomial of one monomial: the product of the given cells with
    /// the given coefficient; the multinomial without monomials where the
    /// coefficient is zero.
    pub fn new(trace_arguments: Vec<(usize, isize)>, coefficient: Fraction) -> (r:
        TraceMultinomial)
        requires
            coefficient@.numerator.degree(1) <= usize::MAX,
        ensures
            r@ == prune(single(sort_indices(indices_view(trace_arguments@)), coefficient@)),
            zero_coefficient(coefficient@) ==> r@.len() == 0,
            !zero_coefficient(coefficient@) ==> r@ == single(
                sort_indices(indices_view(trace_arguments@)),
                coefficient@,
            ),
    {
        let indices = sort(&trace_arguments);
        let mut entries: Vec<Monomial> = Vec::new();
        entries.push(Monomial { indices, coefficient });
        let ghost one = single(sort_indices(indices_view(trace_arguments@)), coefficient@);
        proof {
            lemma_sort_sorted(indices_view(trace_arguments@));
            assert(monomials_view(entries@) =~= one);
            lemma_prune_keeps(one);
            assert(one.drop_last() =~= Seq::<MonomialView>::empty());
            assert(prune(one.drop_last()) =~= Seq::<MonomialView>::empty());
        }
        TraceMultinomial { entries: prune_monomials(&entries) }
    }

    /// The number of monomials. They are in the order of their cells, the
    /// cells of each are in increasing order, and no coefficient is zero.
    pub fn len(&self) -> (n: usize)
        ensures
            n == self@.len(),
            keys_increasing(self@),
            cells_sorted(self@),
            nonzero(self@),
    {
        proof {
            use_type_invariant(self);
        }
        self.entries.len()
    }

    /// The monomial at a position, counted in the order of the cells.
    pub fn monomial(&self, k: usize) -> (r: &Monomial)
        requires
            k < self@.len(),
        ensures
            r@ == self@[k as int],
    {
        &self.entries[k]
    }

    /// A copy of the multinomial.
    pub fn duplicate(&self) -> (r: TraceMultinomial)
        ensures
            r@ == self@,
    {
        proof {
            use_type_invariant(self);
        }
        TraceMultinomial { entries: duplicate_monomials(&self.entries) }
    }

    /// The sum of two multinomials. A monomial whose coefficients cancel
    /// is not kept.
    pub fn add(&self, other: &TraceMultinomial) -> (r: TraceMultinomial)
        requires
            add_fits(self@, other@),
            numerators_fit(add_multinomials(self@, other@)),
        ensures
            r@ == sum_multinomials(self@, other@),
    {
        let ghost a = self@;
        let ghost b = other@;
        let mut entries = duplicate_monomials(&self.entries);
        let mut k: usize = 0;
        proof {
            assert(b.skip(0) =~= b);
        }
        while k < other.entries.len()
            invariant
                k <= other.entries.len(),
                a == self@,
                b == other@,
                add_fits(monomials_view(entries@), b.skip(k as int)),
                add_multinomials(monomials_view(entries@), b.skip(k as int)) == add_multinomials(
                    a,
                    b,
                ),
            decreases other.entries.len() - k,
        {
            proof {
                assert(b.skip(k as int)[0] == other.entries@[k as int]@);
                assert(b.skip(k as int).skip(1) =~= b.skip(k + 1));
            }
            let key = duplicate_indices(&other.entries[k].indices);
            let c = other.entries[k].coefficient.duplicate();
            accumulate_into(&mut entries, key, c);
            k += 1;
        }
        proof {
            use_type_invariant(self);
            use_type_invariant(other);
            assert(b.skip(k as int) =~= Seq::<MonomialView>::empty());
            lemma_add_sorted(a, b);
            lemma_prune_keeps(add_multinomials(a, b));
        }
        TraceMultinomial { entries: prune_monomials(&entries) }
    }

    /// Replaces the multinomial by its sum with another.
    pub fn add_assign(&mut self, other: &TraceMultinomial)
        requires
            add_fits(old(self)@, other@),
            numerators_fit(add_multinomials(old(self)@, other@)),
        ensures
            final(self)@ == sum_multinomials(old(self)@, other@),
    {
        let sum = self.add(other);
        *self = sum;
    }

    /// Whether no coefficient shares a factor of its denominator with a
    /// coefficient of the other multinomial.
    pub fn disjoint(&self, other: &TraceMultinomial) -> (r: bool)
        ensures
            r == disjoint_multinomials(self@, other@),
    {
        let mut i: usize = 0;
        while i < self.entries.len()
            invariant
                i <= self.entries.len(),
                forall|p: int, q: int|
                    0 <= p < i && 0 <= q < other@.len() ==> disjoint_factors(
                        (#[trigger] self@[p]).coefficient.denominator,
                        (#[trigger] other@[q]).coefficient.denominator,
                    ),
            decreases self.entries.len() - i,
        {
            let mut j: usize = 0;
            while j < other.entries.len()
                invariant
                    i < self.entries.len(),
                    j <= other.entries.len(),
                    forall|p: int, q: int|
                        0 <= p < i && 0 <= q < other@.len() ==> disjoint_factors(
                            (#[trigger] self@[p]).coefficient.denominator,
                            (#[trigger] other@[q]).coefficient.denominator,
                        ),
                    forall|q: int|
                        0 <= q < j ==> disjoint_factors(
                            self@[i as int].coefficient.denominator,
                            (#[trigger] other@[q]).coefficient.denominator,
                        ),
                decreases other.entries.len() - j,
            {
                if !self.entries[i].coefficient.disjoint(&other.entries[j].coefficient) {
                    assert(!disjoint_factors(
                        self@[i as int].coefficient.denominator,
                        other@[j as int].coefficient.denominator,
                    ));
                    return false;
                }
                j += 1;
            }
            i += 1;
        }
        true
    }

    /// The product of two multinomials, without the monomials whose
    /// coefficients cancel; there is none where two coefficients share a
    /// factor of their denominators.
    pub fn mul(&self, other: &TraceMultinomial) -> (r: Result<TraceMultinomial, Error>)
        requires
            mul_fits(self@, other@),
            numerators_fit(mul_multinomials(self@, other@)),
        ensures
            disjoint_multinomials(self@, other@) ==> r.is_ok() && r.unwrap()@
                == product_multinomials(self@, other@),
            !disjoint_multinomials(self@, other@) ==> r == Err::<TraceMultinomial, Error>(
                Error::NonDisjointDenominators,
            ),
    {
        if !self.disjoint(other) {
            return Err(Error::NonDisjointDenominators);
        }
        let ghost a = self@;
        let ghost b = other@;
        let mut result: Vec<Monomial> = Vec::new();
        let mut i: usize = 0;
        proof {
            assert(a.skip(0) =~= a);
            assert(monomials_view(result@) =~= Seq::<MonomialView>::empty());
        }
        while i < self.entries.len()
            invariant
                i <= self.entries.len(),
                a == self@,
                b == other@,
                disjoint_multinomials(a, b),
                mul_rows_fit(monomials_view(result@), a.skip(i as int), b),
                mul_rows(monomials_view(result@), a.skip(i as int), b) == mul_multinomials(a, b),
            decreases self.entries.len() - i,
        {
            let ghost row_start = monomials_view(result@);
            let ghost ai = a[i as int];
            proof {
                assert(a.skip(i as int)[0] == ai);
                assert(a.skip(i as int).skip(1) =~= a.skip(i + 1));
                assert(b.skip(0) =~= b);
            }
            let mut j: usize = 0;
            while j < other.entries.len()
                invariant
                    i < self.entries.len(),
                    j <= other.entries.len(),
                    a == self@,
                    b == other@,
                    ai == a[i as int],
                    disjoint_multinomials(a, b),
                    mul_row_fits(
                        monomials_view(result@),
                        ai.indices,
                        ai.coefficient,
                        b.skip(j as int),
                    ),
                    mul_row(monomials_view(result@), ai.indices, ai.coefficient, b.skip(j as int))
                        == mul_row(row_start, ai.indices, ai.coefficient, b),
                decreases other.entries.len() - j,
            {
                proof {
                    assert(b.skip(j as int)[0] == b[j as int]);
                    assert(b.skip(j as int).skip(1) =~= b.skip(j + 1));
                    assert(disjoint_factors(
                        a[i as int].coefficient.denominator,
                        b[j as int].coefficient.denominator,
                    ));
                }
                let key = merge(&self.entries[i].indices, &other.entries[j].indices);
                match self.entries[i].coefficient.mul(&other.entries[j].coefficient) {
                    Ok(c) => {
                        accumulate_into(&mut result, key, c);
                    },
                    Err(_) => vstd::pervasive::unreached(),
                }
                j += 1;
            }
            i += 1;
        }
        proof {
            use_type_invariant(self);
            use_type_invariant(other);
            assert(a.skip(i as int) =~= Seq::<MonomialView>::empty());
            lemma_mul_sorted(a, b);
            lemma_prune_keeps(mul_multinomials(a, b));
        }
        Ok(TraceMultinomial { entries: prune_monomials(&result) })
    }

    /// Replaces the multinomial by its product with another; where two
    /// coefficients share a factor of their denominators it is left as it is.
    pub fn mul_assign(&mut self, other: &TraceMultinomial) -> (r: Result<(), Error>)
        requires
            mul_fits(old(self)@, other@),
            numerators_fit(mul_multinomials(old(self)@, other@)),
        ensures
            disjoint_multinomials(old(self)@, other@) ==> r.is_ok() && final(self)@
                == product_multinomials(old(self)@, other@),
            !disjoint_multinomials(old(self)@, other@) ==> r == Err::<(), Error>(
                Error::NonDisjointDenominators,
            ) && final(self)@ == old(self)@,
    {
        match self.mul(other) {
            Ok(product) => {
                *self = product;
                Ok(())
            },
            Err(e) => Err(e),
        }
    }

    /// The multinomial divided by a polynomial: no monomial is lost.
    pub fn div(&self, denominator: &SparsePolynomial) -> (r: TraceMultinomial)
        ensures
            r@ == div_multinomial(self@, denominator@),
    {
        let ghost target = div_multinomial(self@, denominator@);
        let mut entries: Vec<Monomial> = Vec::new();
        let mut k: usize = 0;
        while k < self.entries.len()
            invariant
                k <= self.entries.len(),
                target == div_multinomial(self@, denominator@),
                monomials_view(entries@) == target.take(k as int),
            decreases self.entries.len() - k,
        {
            let ghost before = monomials_view(entries@);
            let mut coefficient = self.entries[k].coefficient.duplicate();
            coefficient.div_assign(denominator.duplicate());
            let divided = Monomial {
                indices: duplicate_indices(&self.entries[k].indices),
                coefficient,
            };
            entries.push(divided);
            proof {
                assert(divided@ == target[k as int]);
                assert(monomials_view(entries@) =~= before.push(target[k as int]));
                assert(target.take(k + 1) =~= before.push(target[k as int]));
            }
            k += 1;
        }
        proof {
            assert(target.take(k as int) =~= target);
            use_type_invariant(self);
            let m = self@;
            assert forall|i: int, j: int| 0 <= i < j < target.len() implies indices_lt(
                (#[trigger] target[i]).indices,
                (#[trigger] target[j]).indices,
            ) by {
                assert(indices_lt(m[i].indices, m[j].indices));
            }
            assert forall|i: int| 0 <= i < target.len() implies sorted_indices(
                (#[trigger] target[i]).indices,
            ) by {
                assert(sorted_indices(m[i].indices));
            }
            assert forall|i: int| 0 <= i < target.len() implies !zero_coefficient(
                (#[trigger] target[i]).coefficient,
            ) by {
                assert(!zero_coefficient(m[i].coefficient));
            }
        }
        TraceMultinomial { entries }
    }
}


/// Every coefficient is an expression without trace cells, of degree at most
/// `d`, over the empty product.
pub open spec fn plain(m: Seq<MonomialView>, d: nat) -> bool {
    forall|i: int| 0 <= i < m.len() ==> plain_coefficient((#[trigger] m[i]).coefficient, d)
}

/// The coefficient is an expression without trace cells, of degree at most
/// `d`, over the empty product.
pub open spec fn plain_coefficient(c: FractionView, d: nat) -> bool {
    &&& c.denominator.len() == 0
    &&& c.numerator.trace_free()
    &&& c.numerator.degree(1) <= d
}

/// The numerators of a plain multinomial fit where its degree does.
pub proof fn lemma_plain_fits(m: Seq<MonomialView>, d: nat)
    requires
        plain(m, d),
        d <= usize::MAX,
    ensures
        numerators_fit(m),
{
    assert forall|k: int| 0 <= k < m.len() implies (
    #[trigger] m[k]).coefficient.numerator.degree(1) <= usize::MAX by {
        assert(plain_coefficient(m[k].coefficient, d));
    }
}

proof fn lemma_plain_sum(a: FractionView, b: FractionView, d: nat)
    requires
        plain_coefficient(a, d),
        plain_coefficient(b, d),
    ensures
        plain_coefficient(sum_of(a, b), d),
        factors_degree(a.denominator) == 0,
{
    let one = crate::fraction::product_of(Seq::<Terms>::empty());
    assert(crate::fraction::difference_factors(a.denominator, b.denominator).len() == 0);
    assert(crate::fraction::difference_factors(b.denominator, a.denominator).len() == 0);
    assert(crate::fraction::difference_factors(a.denominator, b.denominator) =~= Seq::<
        Terms,
    >::empty());
    assert(crate::fraction::difference_factors(b.denominator, a.denominator) =~= Seq::<
        Terms,
    >::empty());
    crate::polynomial::sparse::lemma_monomial_canonical(1, 0);
    assert(one == crate::polynomial::sparse::monomial_terms(1, 0));
    assert(crate::polynomial::sparse::degree_of(one) == 0);
    assert(PolyExpr::PeriodicColumn(one).degree() == 0);
    let unit = TraceExpr::Poly(PolyExpr::PeriodicColumn(one));
    assert(unit.degree(1) == 0);
    assert(unit.trace_free());
    let left = TraceExpr::Mul(Box::new(a.numerator), Box::new(unit));
    let right = TraceExpr::Mul(Box::new(b.numerator), Box::new(unit));
    assert(left.degree(1) == a.numerator.degree(1));
    assert(right.degree(1) == b.numerator.degree(1));
    assert(left.trace_free() && right.trace_free());
    let s = sum_of(a, b);
    assert(s.numerator == TraceExpr::Add(Box::new(left), Box::new(right)));
    assert(s.numerator.trace_free());
    assert(s.numerator.degree(1) <= d);
    assert(s.denominator.len() == 0);
    assert(factors_degree(a.denominator) == 0);
}

proof fn lemma_plain_product(a: FractionView, b: FractionView, da: nat, db: nat)
    requires
        plain_coefficient(a, da),
        plain_coefficient(b, db),
    ensures
        plain_coefficient(product_of_fractions(a, b), da + db),
        disjoint_factors(a.denominator, b.denominator),
{
}

proof fn lemma_plain_accumulate(m: Seq<MonomialView>, key: Indices, c: FractionView, d: nat)
    requires
        plain(m, d),
        plain_coefficient(c, d),
    ensures
        accumulate_fits(m, key, c),
        plain(accumulate(m, key, c), d),
    decreases m.len(),
{
    let r = accumulate(m, key, c);
    if m.len() == 0 {
    } else if m[0].indices == key {
        lemma_plain_sum(m[0].coefficient, c, d);
        lemma_plain_sum(c, m[0].coefficient, d);
        assert forall|i: int| 0 <= i < r.len() implies plain_coefficient(
            (#[trigger] r[i]).coefficient,
            d,
        ) by {
            if i > 0 {
                assert(r[i] == m[i]);
            }
        }
    } else if indices_lt(key, m[0].indices) {
        assert forall|i: int| 0 <= i < r.len() implies plain_coefficient(
            (#[trigger] r[i]).coefficient,
            d,
        ) by {
            if i > 0 {
                assert(r[i] == m[i - 1]);
            }
        }
    } else {
        let rest = m.skip(1);
        assert(plain(rest, d)) by {
            assert forall|i: int| 0 <= i < rest.len() implies plain_coefficient(
                (#[trigger] rest[i]).coefficient,
                d,
            ) by {
                assert(rest[i] == m[i + 1]);
            }
        }
        lemma_plain_accumulate(rest, key, c, d);
        let tail = accumulate(rest, key, c);
        assert forall|i: int| 0 <= i < r.len() implies plain_coefficient(
            (#[trigger] r[i]).coefficient,
            d,
        ) by {
            if i > 0 {
                assert(r[i] == tail[i - 1]);
            }
        }
    }
}

proof fn lemma_plain_skip(m: Seq<MonomialView>, d: nat)
    requires
        plain(m, d),
        m.len() > 0,
    ensures
        plain(m.skip(1), d),
        plain_coefficient(m[0].coefficient, d),
{
    let rest = m.skip(1);
    assert forall|i: int| 0 <= i < rest.len() implies plain_coefficient(
        (#[trigger] rest[i]).coefficient,
        d,
    ) by {
        assert(rest[i] == m[i + 1]);
    }
}

proof fn lemma_plain_widen(m: Seq<MonomialView>, d: nat, wider: nat)
    requires
        plain(m, d),
        d <= wider,
    ensures
        plain(m, wider),
{
    assert forall|i: int| 0 <= i < m.len() implies plain_coefficient(
        (#[trigger] m[i]).coefficient,
        wider,
    ) by {
        assert(plain_coefficient(m[i].coefficient, d));
    }
}

/// The sum of two plain multinomials is plain, and asks for no product.
pub proof fn lemma_plain_add(a: Seq<MonomialView>, b: Seq<MonomialView>, d: nat)
    requires
        plain(a, d),
        plain(b, d),
    ensures
        add_fits(a, b),
        plain(add_multinomials(a, b), d),
    decreases b.len(),
{
    if b.len() > 0 {
        lemma_plain_skip(b, d);
        lemma_plain_accumulate(a, b[0].indices, b[0].coefficient, d);
        lemma_plain_add(accumulate(a, b[0].indices, b[0].coefficient), b.skip(1), d);
    }
}

proof fn lemma_plain_row(
    acc: Seq<MonomialView>,
    key: Indices,
    c: FractionView,
    b: Seq<MonomialView>,
    da: nat,
    db: nat,
)
    requires
        plain(acc, da + db),
        plain_coefficient(c, da),
        plain(b, db),
    ensures
        mul_row_fits(acc, key, c, b),
        plain(mul_row(acc, key, c, b), da + db),
    decreases b.len(),
{
    if b.len() > 0 {
        lemma_plain_skip(b, db);
        let k = merge_indices(key, b[0].indices);
        let p = product_of_fractions(c, b[0].coefficient);
        lemma_plain_product(c, b[0].coefficient, da, db);
        lemma_plain_accumulate(acc, k, p, da + db);
        lemma_plain_row(accumulate(acc, k, p), key, c, b.skip(1), da, db);
    }
}

proof fn lemma_plain_rows(
    acc: Seq<MonomialView>,
    a: Seq<MonomialView>,
    b: Seq<MonomialView>,
    da: nat,
    db: nat,
)
    requires
        plain(acc, da + db),
        plain(a, da),
        plain(b, db),
    ensures
        mul_rows_fit(acc, a, b),
        plain(mul_rows(acc, a, b), da + db),
    decreases a.len(),
{
    if a.len() > 0 {
        lemma_plain_skip(a, da);
        lemma_plain_row(acc, a[0].indices, a[0].coefficient, b, da, db);
        lemma_plain_rows(
            mul_row(acc, a[0].indices, a[0].coefficient, b),
            a.skip(1),
            b,
            da,
            db,
        );
    }
}

/// The product of two plain multinomials is plain; no two denominators
/// share a factor and no product of denominators is asked for.
pub proof fn lemma_plain_mul(a: Seq<MonomialView>, b: Seq<MonomialView>, da: nat, db: nat)
    requires
        plain(a, da),
        plain(b, db),
    ensures
        mul_fits(a, b),
        disjoint_multinomials(a, b),
        plain(mul_multinomials(a, b), da + db),
{
    lemma_plain_rows(Seq::empty(), a, b, da, db);
    assert forall|i: int, j: int| 0 <= i < a.len() && 0 <= j < b.len() implies disjoint_factors(
        (#[trigger] a[i]).coefficient.denominator,
        (#[trigger] b[j]).coefficient.denominator,
    ) by {
        assert(plain_coefficient(a[i].coefficient, da));
    }
}

/// The multinomial of an expression is plain: its coefficients are
/// expressions in `X` alone, of at most the expression's degree in `X`, over
/// the empty product.
pub proof fn lemma_multinomial_plain(e: TraceExpr)
    ensures
        plain(multinomial_of(e), e.degree(1)),
    decreases e,
{
    match e {
        TraceExpr::Trace(i, j) => {},
        TraceExpr::Poly(p) => {
            lemma_prune_plain(single(Seq::empty(), plain_fraction(p)), e.degree(1));
        },
        TraceExpr::Neg(a) => {
            lemma_multinomial_plain(*a);
            lemma_plain_mul(minus_one(), multinomial_of(*a), 0, a.degree(1));
            lemma_prune_plain(mul_multinomials(minus_one(), multinomial_of(*a)), e.degree(1));
        },
        TraceExpr::Add(a, b) => {
            lemma_multinomial_plain(*a);
            lemma_multinomial_plain(*b);
            let d = e.degree(1);
            lemma_plain_widen(multinomial_of(*a), a.degree(1), d);
            lemma_plain_widen(multinomial_of(*b), b.degree(1), d);
            lemma_plain_add(multinomial_of(*a), multinomial_of(*b), d);
            lemma_prune_plain(add_multinomials(multinomial_of(*a), multinomial_of(*b)), d);
        },
        TraceExpr::Mul(a, b) => {
            lemma_multinomial_plain(*a);
            lemma_multinomial_plain(*b);
            lemma_plain_mul(multinomial_of(*a), multinomial_of(*b), a.degree(1), b.degree(1));
            lemma_prune_plain(
                mul_multinomials(multinomial_of(*a), multinomial_of(*b)),
                e.degree(1),
            );
        },
    }
}

/// The cells of each monomial, in the order of the monomials.
pub open spec fn keys_of(m: Seq<MonomialView>) -> Seq<Indices> {
    Seq::new(m.len(), |i: int| m[i].indices)
}

/// The multinomial of a sum is the sum of the multinomials.
pub proof fn lemma_multinomial_of_sum(a: TraceExpr, b: TraceExpr)
    ensures
        multinomial_of(TraceExpr::Add(Box::new(a), Box::new(b))) == sum_multinomials(
            multinomial_of(a),
            multinomial_of(b),
        ),
{
}

/// The product of two single monomials is the one monomial of their merged
/// cells.
proof fn lemma_single_product(k1: Indices, c1: FractionView, k2: Indices, c2: FractionView)
    ensures
        mul_multinomials(single(k1, c1), single(k2, c2)) == single(
            merge_indices(k1, k2),
            product_of_fractions(c1, c2),
        ),
{
    let a = single(k1, c1);
    let b = single(k2, c2);
    let empty = Seq::<MonomialView>::empty();
    assert(a.skip(1) =~= empty);
    assert(b.skip(1) =~= empty);
    let key = merge_indices(k1, k2);
    let p = product_of_fractions(c1, c2);
    let row = accumulate(empty, key, p);
    assert(row == single(key, p));
    assert(mul_row(row, k1, c1, b.skip(1)) == row);
    assert(mul_row(empty, k1, c1, b) == row);
    assert(mul_rows(row, a.skip(1), b) == row);
}

/// The two products of two trace cells, in either order, are the same
/// multinomial, with the same cells: those of both factors, in increasing
/// order.
pub proof fn lemma_product_of_cells_commutes(i1: nat, j1: int, i2: nat, j2: int)
    ensures
        multinomial_of(
            TraceExpr::Mul(Box::new(TraceExpr::Trace(i1, j1)), Box::new(TraceExpr::Trace(i2, j2))),
        ) == multinomial_of(
            TraceExpr::Mul(Box::new(TraceExpr::Trace(i2, j2)), Box::new(TraceExpr::Trace(i1, j1))),
        ),
        keys_of(
            multinomial_of(
                TraceExpr::Mul(
                    Box::new(TraceExpr::Trace(i1, j1)),
                    Box::new(TraceExpr::Trace(i2, j2)),
                ),
            ),
        ) == keys_of(
            multinomial_of(
                TraceExpr::Mul(
                    Box::new(TraceExpr::Trace(i2, j2)),
                    Box::new(TraceExpr::Trace(i1, j1)),
                ),
            ),
        ),
{
    let one = plain_fraction(PolyExpr::Constant(1));
    let k1 = seq![(i1, j1)];
    let k2 = seq![(i2, j2)];
    lemma_single_product(k1, one, k2, one);
    lemma_single_product(k2, one, k1, one);
    let empty = Seq::<(nat, int)>::empty();
    assert(k1.skip(1) =~= empty);
    assert(k2.skip(1) =~= empty);
    let forth = merge_indices(k1, k2);
    let back = merge_indices(k2, k1);
    if index_lt((i2, j2), (i1, j1)) {
        assert(merge_indices(k1, empty) == k1);
        assert(forth == seq![(i2, j2)] + k1);
        assert(merge_indices(empty, k1) == k1);
        assert(back == seq![(i2, j2)] + k1);
    } else if index_lt((i1, j1), (i2, j2)) {
        assert(merge_indices(empty, k2) == k2);
        assert(forth == seq![(i1, j1)] + k2);
        assert(merge_indices(k2, empty) == k2);
        assert(back == seq![(i1, j1)] + k2);
    } else {
        assert((i1, j1) == (i2, j2));
        assert(forth == seq![(i1, j1)] + merge_indices(empty, k2));
        assert(back == seq![(i2, j2)] + merge_indices(empty, k1));
    }
    assert(forth == back);
    let a = multinomial_of(
        TraceExpr::Mul(Box::new(TraceExpr::Trace(i1, j1)), Box::new(TraceExpr::Trace(i2, j2))),
    );
    let b = multinomial_of(
        TraceExpr::Mul(Box::new(TraceExpr::Trace(i2, j2)), Box::new(TraceExpr::Trace(i1, j1))),
    );
    assert(multinomial_of(TraceExpr::Trace(i1, j1)) == single(k1, one));
    assert(multinomial_of(TraceExpr::Trace(i2, j2)) == single(k2, one));
    assert(a == prune(mul_multinomials(single(k1, one), single(k2, one))));
    assert(b == prune(mul_multinomials(single(k2, one), single(k1, one))));
    assert(a == prune(single(forth, product_of_fractions(one, one))));
    assert(b == prune(single(back, product_of_fractions(one, one))));
    assert(a == b);
}

/// The product of a constant and a polynomial of one constant term.
proof fn lemma_constant_product(a: nat, b: nat)
    requires
        0 < b < modulus(),
    ensures
        mul_terms(seq![(a, 0nat)], seq![(b, 0nat)]) == if mul_mod(a, b) == 0 {
            Seq::<(nat, nat)>::empty()
        } else {
            seq![(mul_mod(a, b), 0nat)]
        },
{
    let none = Seq::<(nat, nat)>::empty();
    let left = seq![(a, 0nat)];
    let right = seq![(b, 0nat)];
    assert(left.skip(1) =~= none);
    assert(right.skip(1) =~= none);
    assert(mul_terms(left.skip(1), right) == none);
    assert(scale_terms(right.skip(1), a, 0) == none);
    let scaled = scale_terms(right, a, 0);
    if mul_mod(a, b) == 0 {
        assert(scaled == none);
    } else {
        assert(scaled =~= seq![(mul_mod(a, b), 0nat)]);
    }
    assert(mul_terms(left, right) == add_terms(scaled, none));
}

/// A trace cell less itself expands to the multinomial without monomials:
/// the coefficients one and minus one of the cell add up to zero, and the
/// monomial is not kept.
pub proof fn lemma_cell_minus_itself(i: nat, j: int)
    ensures
        multinomial_of(
            TraceExpr::Add(
                Box::new(TraceExpr::Trace(i, j)),
                Box::new(TraceExpr::Neg(Box::new(TraceExpr::Trace(i, j)))),
            ),
        ) == Seq::<MonomialView>::empty(),
{
    crate::modular::lemma_modulus_positive();
    let sign = (modulus() - 1) as nat;
    crate::modular::lemma_small(1);
    crate::modular::lemma_small(sign);
    crate::modular::lemma_mul_mod_one(1);
    crate::modular::lemma_mul_mod_one(sign);
    vstd::arithmetic::div_mod::lemma_mod_self_0(modulus() as int);
    let none = Seq::<MonomialView>::empty();
    let no_terms = Seq::<(nat, nat)>::empty();
    let no_factors = Seq::<Terms>::empty();
    let no_cells = Seq::<(nat, int)>::empty();
    let one_terms = seq![(1nat, 0nat)];
    let sign_terms = seq![(sign, 0nat)];
    assert(monomial_terms(1, 0) == one_terms);
    assert(monomial_terms(sign, 0) == sign_terms);
    lemma_constant_product(1, 1);
    lemma_constant_product(sign, 1);
    assert(mul_terms(one_terms, one_terms) == one_terms);
    assert(mul_terms(sign_terms, one_terms) == sign_terms);
    let key = seq![(i, j)];
    let one = plain_fraction(PolyExpr::Constant(1));
    let minus = plain_fraction(PolyExpr::Constant(sign));
    let cell = TraceExpr::Trace(i, j);
    assert(multinomial_of(cell) == single(key, one));
    // the negation is the one monomial with the coefficient minus one
    lemma_single_product(no_cells, minus, key, one);
    assert(merge_indices(no_cells, key) == key);
    let product = product_of_fractions(minus, one);
    assert(product.denominator == no_factors);
    assert(PolyExpr::Constant(sign).reify() == sign_terms);
    assert(PolyExpr::Constant(1).reify() == one_terms);
    assert(minus.numerator.reify() == sign_terms);
    assert(one.numerator.reify() == one_terms);
    assert(product.numerator.reify() == sign_terms);
    let negated = single(key, product);
    assert(negated.len() == 1);
    assert(nonzero(negated)) by {
        assert(sign_terms.len() == 1);
    }
    lemma_prune_keeps(negated);
    let negation = TraceExpr::Neg(Box::new(cell));
    assert(multinomial_of(negation) == negated);
    // the sum is the one monomial with the two coefficients added
    let summed = single(key, one);
    assert(summed.skip(1) =~= none);
    assert(negated.skip(1) =~= none);
    let total = sum_of(one, product);
    assert(accumulate(summed, key, product) =~= single(key, total));
    assert(add_multinomials(single(key, total), none) == single(key, total));
    assert(add_multinomials(summed, negated) == single(key, total));
    // and that coefficient is zero
    assert(difference_factors(product.denominator, one.denominator) =~= no_factors);
    assert(difference_factors(one.denominator, product.denominator) =~= no_factors);
    assert(product_of(no_factors) == one_terms);
    let unit = TraceExpr::Poly(PolyExpr::PeriodicColumn(one_terms));
    let left = TraceExpr::Mul(Box::new(one.numerator), Box::new(unit));
    let right = TraceExpr::Mul(Box::new(product.numerator), Box::new(unit));
    assert(total.numerator == TraceExpr::Add(Box::new(left), Box::new(right)));
    assert(unit.reify() == one_terms);
    assert(left.reify() == one_terms);
    assert(right.reify() == sign_terms);
    assert(one_terms.skip(1) =~= no_terms);
    assert(sign_terms.skip(1) =~= no_terms);
    assert(add_mod(1, sign) == 0);
    assert(add_terms(no_terms, no_terms) == no_terms);
    assert(add_terms(one_terms.skip(1), sign_terms.skip(1)) == no_terms);
    assert(one_terms[0] == (1nat, 0nat) && sign_terms[0] == (sign, 0nat));
    assert(add_terms(one_terms, sign_terms) == no_terms);
    assert(total.numerator.reify() == no_terms);
    assert(unit.trace_free());
    assert(one.numerator.trace_free());
    assert(minus.numerator.trace_free());
    assert(product.numerator.trace_free());
    assert(left.trace_free() && right.trace_free());
    assert(total.numerator.trace_free());
    assert(zero_coefficient(total));
    let whole = single(key, total);
    assert(whole.drop_last() =~= none);
    assert(prune(whole.drop_last()) == none);
    assert(prune(whole) == none);
}

impl TraceMultinomial {
    /// The multinomial that an expression expands to: a trace cell is a
    /// monomial with coefficient one, an expression in `X` alone a
    /// coefficient without cells, sums and products are expanded, and a
    /// monomial whose coefficient is zero is not kept. Its cells are cells
    /// of the expression.
    pub fn from_expression(expression: &Expression) -> (r: TraceMultinomial)
        requires
            expression@.degree(1) <= usize::MAX,
        ensures
            r@ == multinomial_of(expression@),
            plain(r@, expression@.degree(1)),
            nonzero(r@),
            keys_in(r@, cells_of(expression@)),
        decreases expression,
    {
        proof {
            lemma_multinomial_plain(expression@);
            lemma_multinomial_nonzero(expression@);
            lemma_multinomial_reads(expression@);
            lemma_one_is_not_zero();
        }
        match expression {
            Expression::Term(Term::Trace(i, j)) => {
                let mut indices: Vec<(usize, isize)> = Vec::new();
                indices.push((*i, *j));
                proof {
                    let key = seq![(*i as nat, *j as int)];
                    assert(indices_view(indices@) =~= key);
                    assert(key.drop_last() =~= Seq::<(nat, int)>::empty());
                    assert(sort_indices(key.drop_last()) =~= Seq::<(nat, int)>::empty());
                    assert(sort_indices(key) == key);
                    lemma_prune_keeps(single(key, plain_fraction(PolyExpr::Constant(1))));
                }
                TraceMultinomial::new(indices, Fraction::one())
            },
            Expression::Term(Term::Other(other)) => {
                let indices: Vec<(usize, isize)> = Vec::new();
                assert(indices_view(indices@) =~= Seq::<(nat, int)>::empty());
                assert(sort_indices(Seq::<(nat, int)>::empty()) == Seq::<(nat, int)>::empty());
                TraceMultinomial::new(indices, Fraction::from_other(other.duplicate()))
            },
            Expression::Operation(Operation::Neg(a)) => {
                let indices: Vec<(usize, isize)> = Vec::new();
                assert(indices_view(indices@) =~= Seq::<(nat, int)>::empty());
                assert(sort_indices(Seq::<(nat, int)>::empty()) == Seq::<(nat, int)>::empty());
                let sign = TraceMultinomial::new(
                    indices,
                    Fraction::from_other(Other::Constant(FieldElement::negative_one())),
                );
                let inner = TraceMultinomial::from_expression(a);
                proof {
                    lemma_prune_keeps(minus_one());
                    lemma_plain_mul(sign@, inner@, 0, a@.degree(1));
                    lemma_plain_fits(mul_multinomials(sign@, inner@), a@.degree(1));
                }
                match sign.mul(&inner) {
                    Ok(product) => product,
                    Err(_) => vstd::pervasive::unreached(),
                }
            },
            Expression::Operation(Operation::Add(a, b)) => {
                let left = TraceMultinomial::from_expression(a);
                let right = TraceMultinomial::from_expression(b);
                proof {
                    let d = expression@.degree(1);
                    lemma_plain_widen(left@, a@.degree(1), d);
                    lemma_plain_widen(right@, b@.degree(1), d);
                    lemma_plain_add(left@, right@, d);
                    lemma_plain_fits(add_multinomials(left@, right@), d);
                }
                left.add(&right)
            },
            Expression::Operation(Operation::Mul(a, b)) => {
                let left = TraceMultinomial::from_expression(a);
                let right = TraceMultinomial::from_expression(b);
                proof {
                    lemma_plain_mul(left@, right@, a@.degree(1), b@.degree(1));
                    lemma_plain_fits(mul_multinomials(left@, right@), expression@.degree(1));
                }
                match left.mul(&right) {
                    Ok(product) => product,
                    Err(_) => vstd::pervasive::unreached(),
                }
            },
        }
    }
}

} // verus!
