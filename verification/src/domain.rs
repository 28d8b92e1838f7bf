//! Evaluation over the whole domain: each trace cell is a dense polynomial,
//! and so is the result.
//!
//! An expression is expanded into a multinomial. Each monomial is the
//! product of its cells' polynomials, times its coefficient's numerator,
//! divided by each factor of the denominator; the result is their sum.

use crate::expression::Expression;
use crate::field::FieldElement;
use crate::fraction::factors_view;
use crate::polynomial::dense::{
    dense_add, dense_mul, dense_mul_sparse, dense_of, exact_quotient, DensePolynomial,
};
use crate::polynomial::sparse::{SparsePolynomial, Terms};
use crate::trace_multinomial::{
    cells_of, indices_in, indices_view, multinomial_of, multinomial_reads, numerators_fit,
    plain_coefficient, Indices, Monomial, MonomialView, TraceMultinomial,
};
use vstd::prelude::*;

verus! {

/// A sparse factor with fewer terms than this is multiplied term by term;
/// one with more is made dense first.
pub const SPARSE_THRESHOLD: usize = 20;

/// The product of a dense and a sparse polynomial, by the way that the
/// number of terms selects.
pub open spec fn mul_threshold(p: Seq<nat>, s: Terms) -> Seq<nat> {
    if s.len() < SPARSE_THRESHOLD {
        dense_mul_sparse(p, s)
    } else {
        dense_mul(p, dense_of(s))
    }
}

/// The product of the polynomials of the given cells, from one on.
pub open spec fn cells_product(indices: Indices, oracle: spec_fn(nat, int) -> Seq<nat>) -> Seq<
    nat,
>
    decreases indices.len(),
{
    if indices.len() == 0 {
        seq![1nat]
    } else {
        dense_mul(
            cells_product(indices.drop_last(), oracle),
            oracle(indices.last().0, indices.last().1),
        )
    }
}

/// `p` divided by each factor in turn, where every division is exact.
pub open spec fn divide_all(p: Seq<nat>, factors: Seq<Terms>) -> Option<Seq<nat>>
    decreases factors.len(),
{
    if factors.len() == 0 {
        Some(p)
    } else {
        match exact_quotient(p, factors[0]) {
            Some(q) => divide_all(q, factors.skip(1)),
            None => None,
        }
    }
}

/// What one monomial adds to the result: none where its numerator holds a
/// trace cell or a division by a factor of its denominator is not exact.
pub open spec fn increment_of(m: MonomialView, oracle: spec_fn(nat, int) -> Seq<nat>) -> Option<
    Seq<nat>,
> {
    if m.coefficient.numerator.trace_free() {
        divide_all(
            mul_threshold(cells_product(m.indices, oracle), m.coefficient.numerator.reify()),
            m.coefficient.denominator,
        )
    } else {
        None
    }
}

/// The sum of what the monomials add, from zero on.
pub open spec fn domain_value(m: Seq<MonomialView>, oracle: spec_fn(nat, int) -> Seq<nat>)
    -> Option<Seq<nat>>
    decreases m.len(),
{
    if m.len() == 0 {
        Some(seq![0nat])
    } else {
        match (domain_value(m.drop_last(), oracle), increment_of(m.last(), oracle)) {
            (Some(r), Some(i)) => Some(dense_add(r, i)),
            _ => None,
        }
    }
}

/// Whether `oracle` tells which polynomial the closure returns for each
/// trace cell.
pub open spec fn answers_dense<G: Fn(usize, isize) -> DensePolynomial>(
    trace_table: G,
    oracle: spec_fn(nat, int) -> Seq<nat>,
) -> bool {
    forall|i: usize, j: isize, v: DensePolynomial| #[trigger]
        trace_table.ensures((i, j), v) ==> v@ == oracle(i as nat, j as int)
}

/// Every numerator is in `X` alone and every denominator is empty.
pub open spec fn undivided(m: Seq<MonomialView>) -> bool {
    forall|k: int|
        0 <= k < m.len() ==> (#[trigger] m[k]).coefficient.numerator.trace_free()
            && m[k].coefficient.denominator.len() == 0
}

/// Multiplies a dense polynomial by a sparse one: term by term where the
/// sparse one has few terms, as two dense polynomials where it has many.
pub fn mul_assign(p: &mut DensePolynomial, other_polynomial: SparsePolynomial)
    ensures
        final(p)@ == mul_threshold(old(p)@, other_polynomial@),
{
    if other_polynomial.len() < SPARSE_THRESHOLD {
        let product = p.mul_sparse(&other_polynomial);
        *p = product;
    } else {
        let product = p.mul(&DensePolynomial::from_sparse(&other_polynomial));
        *p = product;
    }
}

/// The product of the polynomials that the cells hold.
fn product_of_cells<G: Fn(usize, isize) -> DensePolynomial>(
    indices: &Vec<(usize, isize)>,
    trace_table: &G,
) -> (r: DensePolynomial)
    requires
        forall|i: usize, j: isize|
            indices_view(indices@).contains((i as nat, j as int))
                ==> #[trigger] trace_table.requires((i, j)),
    ensures
        forall|oracle: spec_fn(nat, int) -> Seq<nat>| #[trigger]
            answers_dense(*trace_table, oracle) ==> r@ == cells_product(
                indices_view(indices@),
                oracle,
            ),
{
    let ghost s = indices_view(indices@);
    let mut r = DensePolynomial::constant(FieldElement::one());
    let mut k: usize = 0;
    proof {
        assert(s.take(0) =~= Seq::<(nat, int)>::empty());
    }
    while k < indices.len()
        invariant
            k <= indices.len(),
            s == indices_view(indices@),
            forall|i: usize, j: isize|
                s.contains((i as nat, j as int)) ==> #[trigger] trace_table.requires((i, j)),
            forall|oracle: spec_fn(nat, int) -> Seq<nat>| #[trigger]
                answers_dense(*trace_table, oracle) ==> r@ == cells_product(
                    s.take(k as int),
                    oracle,
                ),
        decreases indices.len() - k,
    {
        let (i, j) = indices[k];
        proof {
            assert(s[k as int] == (i as nat, j as int));
            assert(s.contains((i as nat, j as int)));
        }
        let cell = trace_table(i, j);
        let ghost before = r@;
        r = r.mul(&cell);
        proof {
            assert(s.take(k + 1).drop_last() =~= s.take(k as int));
            assert(s.take(k + 1).last() == (i as nat, j as int));
            assert forall|oracle: spec_fn(nat, int) -> Seq<nat>| #[trigger]
                answers_dense(*trace_table, oracle) implies r@ == cells_product(
                s.take(k + 1),
                oracle,
            ) by {
                assert(cell@ == oracle(i as nat, j as int));
                assert(before == cells_product(s.take(k as int), oracle));
            }
        }
        k += 1;
    }
    proof {
        assert(s.take(k as int) =~= s);
    }
    r
}

/// Divides by each factor in turn.
fn divide_by_all(p: DensePolynomial, factors: &Vec<SparsePolynomial>) -> (r: Option<
    DensePolynomial,
>)
    ensures
        match r {
            Some(q) => divide_all(p@, factors_view(factors@)) == Some(q@),
            None => divide_all(p@, factors_view(factors@)).is_none(),
        },
        factors@.len() == 0 ==> r.is_some(),
{
    let ghost s = factors_view(factors@);
    let ghost start = p@;
    let mut current = p;
    let mut k: usize = 0;
    proof {
        assert(s.skip(0) =~= s);
    }
    while k < factors.len()
        invariant
            k <= factors.len(),
            s == factors_view(factors@),
            start == p@,
            divide_all(current@, s.skip(k as int)) == divide_all(start, s),
        decreases factors.len() - k,
    {
        proof {
            assert(s.skip(k as int)[0] == factors@[k as int]@);
            assert(s.skip(k as int).skip(1) =~= s.skip(k + 1));
        }
        match current.div_sparse(&factors[k]) {
            Some(q) => {
                current = q;
            },
            None => {
                return None;
            },
        }
        k += 1;
    }
    Some(current)
}

/// What one monomial adds to the result.
fn increment<G: Fn(usize, isize) -> DensePolynomial>(monomial: &Monomial, trace_table: &G) -> (r:
    Option<DensePolynomial>)
    requires
        forall|i: usize, j: isize|
            monomial@.indices.contains((i as nat, j as int)) ==> #[trigger] trace_table.requires(
                (i, j),
            ),
        monomial@.coefficient.numerator.degree(1) <= usize::MAX,
    ensures
        forall|oracle: spec_fn(nat, int) -> Seq<nat>| #[trigger]
            answers_dense(*trace_table, oracle) ==> match r {
                Some(p) => increment_of(monomial@, oracle) == Some(p@),
                None => increment_of(monomial@, oracle).is_none(),
            },
        monomial@.coefficient.numerator.trace_free() && monomial@.coefficient.denominator.len()
            == 0 ==> r.is_some(),
{
    let numerator = match monomial.coefficient().numerator().to_sparse() {
        Ok(n) => n,
        Err(_) => {
            return None;
        },
    };
    let mut product = product_of_cells(monomial.indices(), trace_table);
    let ghost cells = product@;
    mul_assign(&mut product, numerator);
    let r = divide_by_all(product, monomial.coefficient().denominator());
    proof {
        assert forall|oracle: spec_fn(nat, int) -> Seq<nat>| #[trigger]
            answers_dense(*trace_table, oracle) implies match r {
            Some(p) => increment_of(monomial@, oracle) == Some(p@),
            None => increment_of(monomial@, oracle).is_none(),
        } by {
            assert(cells == cells_product(monomial@.indices, oracle));
        }
    }
    r
}

impl TraceMultinomial {
    /// The dense polynomial that the multinomial is where each trace cell
    /// is the polynomial that `trace_table` gives. There is none where a
    /// numerator holds a trace cell or a division is not exact. The table
    /// is asked for the cells of the monomials only.
    pub fn eval_on_domain<G: Fn(usize, isize) -> DensePolynomial>(&self, trace_table: &G) -> (r:
        Option<DensePolynomial>)
        requires
            forall|i: usize, j: isize|
                multinomial_reads(self@, i as nat, j as int) ==> #[trigger] trace_table.requires(
                    (i, j),
                ),
            numerators_fit(self@),
        ensures
            forall|oracle: spec_fn(nat, int) -> Seq<nat>| #[trigger]
                answers_dense(*trace_table, oracle) ==> match r {
                    Some(p) => domain_value(self@, oracle) == Some(p@),
                    None => domain_value(self@, oracle).is_none(),
                },
            undivided(self@) ==> r.is_some(),
    {
        let ghost m = self@;
        let mut result = DensePolynomial::constant(FieldElement::zero());
        let mut k: usize = 0;
        proof {
            assert(m.take(0) =~= Seq::<MonomialView>::empty());
        }
        while k < self.len()
            invariant
                k <= self@.len(),
                m == self@,
                numerators_fit(m),
                forall|i: usize, j: isize|
                    multinomial_reads(m, i as nat, j as int) ==> #[trigger] trace_table.requires(
                        (i, j),
                    ),
                forall|oracle: spec_fn(nat, int) -> Seq<nat>| #[trigger]
                    answers_dense(*trace_table, oracle) ==> domain_value(m.take(k as int), oracle)
                        == Some(result@),
            decreases self@.len() - k,
        {
            let monomial = self.monomial(k);
            proof {
                assert(m.take(k + 1).drop_last() =~= m.take(k as int));
                assert(m.take(k + 1).last() == m[k as int]);
                assert(m[k as int].coefficient.numerator.degree(1) <= usize::MAX);
                assert forall|i: usize, j: isize|
                    m[k as int].indices.contains(
                        (i as nat, j as int),
                    ) implies #[trigger] trace_table.requires((i, j)) by {
                    assert(multinomial_reads(m, i as nat, j as int));
                }
            }
            let ghost before = result@;
            match increment(monomial, trace_table) {
                Some(part) => {
                    result.add_assign(&part);
                    proof {
                        assert forall|oracle: spec_fn(nat, int) -> Seq<nat>| #[trigger]
                            answers_dense(*trace_table, oracle) implies domain_value(
                            m.take(k + 1),
                            oracle,
                        ) == Some(result@) by {
                            assert(domain_value(m.take(k as int), oracle) == Some(before));
                            assert(increment_of(m[k as int], oracle) == Some(part@));
                        }
                    }
                },
                None => {
                    proof {
                        assert forall|oracle: spec_fn(nat, int) -> Seq<nat>| #[trigger]
                            answers_dense(*trace_table, oracle) implies domain_value(
                            m,
                            oracle,
                        ).is_none() by {
                            assert(increment_of(m[k as int], oracle).is_none());
                            lemma_domain_value_none(m, oracle, k as int);
                        }
                        if undivided(m) {
                            assert(m[k as int].coefficient.numerator.trace_free());
                        }
                    }
                    return None;
                },
            }
            k += 1;
        }
        proof {
            assert(m.take(k as int) =~= m);
        }
        Some(result)
    }
}

/// Where one monomial adds nothing, there is no sum.
pub proof fn lemma_domain_value_none(
    m: Seq<MonomialView>,
    oracle: spec_fn(nat, int) -> Seq<nat>,
    k: int,
)
    requires
        0 <= k < m.len(),
        increment_of(m[k], oracle).is_none(),
    ensures
        domain_value(m, oracle).is_none(),
    decreases m.len(),
{
    if k < m.len() - 1 {
        lemma_domain_value_none(m.drop_last(), oracle, k);
    }
}

impl Expression {
    /// The dense polynomial that the expression is where each trace cell is
    /// the polynomial that `trace_table` gives: the expression is expanded
    /// into its multinomial, and the monomials are multiplied out and added.
    /// The table is asked for cells of the expression only.
    pub fn eval_on_domain<G: Fn(usize, isize) -> DensePolynomial>(&self, trace_table: &G) -> (r:
        DensePolynomial)
        requires
            forall|i: usize, j: isize|
                self@.reads(i as nat, j as int) ==> #[trigger] trace_table.requires((i, j)),
            self@.degree(1) <= usize::MAX,
        ensures
            forall|oracle: spec_fn(nat, int) -> Seq<nat>| #[trigger]
                answers_dense(*trace_table, oracle) ==> domain_value(
                    multinomial_of(self@),
                    oracle,
                ) == Some(r@),
    {
        let multinomial = TraceMultinomial::from_expression(self);
        proof {
            let m = multinomial@;
            assert forall|k: int| 0 <= k < m.len() implies (
            #[trigger] m[k]).coefficient.numerator.trace_free()
                && m[k].coefficient.denominator.len() == 0 && m[k].coefficient.numerator.degree(1)
                <= usize::MAX by {
                assert(plain_coefficient(m[k].coefficient, self@.degree(1)));
            }
            assert forall|i: usize, j: isize|
                multinomial_reads(
                    m,
                    i as nat,
                    j as int,
                ) implies #[trigger] trace_table.requires((i, j)) by {
                let cell = (i as nat, j as int);
                let k = choose|k: int| 0 <= k < m.len() && (#[trigger] m[k]).indices.contains(cell);
                assert(indices_in(m[k].indices, cells_of(self@)));
                let l = choose|l: int| 0 <= l < m[k].indices.len() && m[k].indices[l] == cell;
                assert(cells_of(self@).contains(m[k].indices[l]));
                assert(self@.reads(i as nat, j as int));
            }
        }
        match multinomial.eval_on_domain(trace_table) {
            Some(r) => r,
            None => vstd::pervasive::unreached(),
        }
    }
}

} // verus!
