//! The two evaluators agree: the polynomial that an expression is over the
//! domain takes, at each point, the value that the expression has there.

use crate::constraint::{
    adjusted_term, bucket_polynomial, buckets_divide_at, combined, divides_at, group_insert,
    grouped_polynomial, grouped_value, key_before, plain_term, same_key, BucketView, ConstraintView,
};
use crate::domain::{cells_product, domain_value, increment_of, mul_threshold, undivided};
use crate::expression::{lemma_reify_value, lemma_trace_free_value, PolyExpr, TraceExpr};
use crate::fraction::{product_of_fractions, sum_of, FractionView};
use crate::grouping::{lemma_grouped_is_ungrouped, lemma_share_of_sum, share, ungrouped_value};
use crate::modular::{
    add_mod, inv_mod, lemma_add_mod_assoc, lemma_add_mod_comm, lemma_add_mod_zero, lemma_mod_absorb,
    lemma_modulus_positive, lemma_mul_mod_assoc, lemma_mul_mod_comm, lemma_mul_mod_distributes,
    lemma_mul_mod_one, lemma_mul_mod_swap, lemma_mul_mod_zero, lemma_neg_mod_is_mul,
    lemma_pow_mod_reduced, lemma_reduced, lemma_small, modulus, mul_mod,
};
use crate::polynomial::dense::{
    dense_add, eval_dense, exact_quotient, lemma_eval_dense_add, lemma_eval_dense_mul,
    lemma_eval_dense_mul_sparse, lemma_eval_dense_of, lemma_eval_dense_reduced,
    lemma_exact_quotient,
};
use crate::polynomial::sparse::{eval_terms, lemma_eval_monomial, lemma_eval_reduced, Terms};
use crate::trace_multinomial::{
    accumulate, add_multinomials, index_lt, lemma_multinomial_plain, merge_indices, minus_one,
    mul_multinomials, mul_row, mul_rows, multinomial_of, plain, plain_coefficient, prune, single,
    zero_coefficient, Indices, MonomialView,
};
use vstd::prelude::*;

verus! {

/// The values at `x` of the polynomials that `oracle` gives for the cells.
pub open spec fn pointwise(oracle: spec_fn(nat, int) -> Seq<nat>, x: nat) -> spec_fn(
    nat,
    int,
) -> nat {
    |i: nat, j: int| eval_dense(oracle(i, j), x)
}

/// The product of what the cells hold, from one on.
pub open spec fn cells_value(indices: Indices, oracle: spec_fn(nat, int) -> nat) -> nat
    decreases indices.len(),
{
    if indices.len() == 0 {
        1
    } else {
        mul_mod(
            cells_value(indices.drop_last(), oracle),
            oracle(indices.last().0, indices.last().1),
        )
    }
}

/// The value at `x` of a monomial whose coefficient has no denominator.
pub open spec fn monomial_value(m: MonomialView, oracle: spec_fn(nat, int) -> nat, x: nat) -> nat {
    mul_mod(cells_value(m.indices, oracle), m.coefficient.numerator.value(oracle, x))
}

/// The value at `x` of a multinomial whose coefficients have no
/// denominators: the sum of the values of its monomials, from zero on.
pub open spec fn multinomial_value(
    m: Seq<MonomialView>,
    oracle: spec_fn(nat, int) -> nat,
    x: nat,
) -> nat
    decreases m.len(),
{
    if m.len() == 0 {
        0
    } else {
        add_mod(multinomial_value(m.drop_last(), oracle, x), monomial_value(m.last(), oracle, x))
    }
}

proof fn lemma_poly_value_reduced(e: PolyExpr, x: nat)
    ensures
        e.value(x) < modulus(),
{
    lemma_modulus_positive();
    match e {
        PolyExpr::X => {
            lemma_reduced(x, x);
        },
        PolyExpr::Constant(c) => {
            lemma_reduced(c, c);
        },
        PolyExpr::PeriodicColumn(p) => {
            lemma_eval_reduced(p, x);
        },
        PolyExpr::Neg(a) => {
            lemma_reduced(a.value(x), a.value(x));
        },
        PolyExpr::Add(a, b) => {
            lemma_reduced(a.value(x), b.value(x));
        },
        PolyExpr::Mul(a, b) => {
            lemma_reduced(a.value(x), b.value(x));
        },
        PolyExpr::Pow(a, n) => {
            lemma_pow_mod_reduced(a.value(x), n);
        },
    }
}

proof fn lemma_cells_value_reduced(indices: Indices, oracle: spec_fn(nat, int) -> nat)
    ensures
        cells_value(indices, oracle) < modulus(),
{
    lemma_modulus_positive();
    if indices.len() > 0 {
        lemma_reduced(
            cells_value(indices.drop_last(), oracle),
            oracle(indices.last().0, indices.last().1),
        );
    }
}

proof fn lemma_multinomial_value_reduced(
    m: Seq<MonomialView>,
    oracle: spec_fn(nat, int) -> nat,
    x: nat,
)
    ensures
        multinomial_value(m, oracle, x) < modulus(),
{
    lemma_modulus_positive();
    if m.len() > 0 {
        lemma_reduced(
            multinomial_value(m.drop_last(), oracle, x),
            monomial_value(m.last(), oracle, x),
        );
    }
}

/// The product of the cells' polynomials takes the product of their values.
proof fn lemma_cells_product_value(indices: Indices, oracle: spec_fn(nat, int) -> Seq<nat>, x: nat)
    ensures
        eval_dense(cells_product(indices, oracle), x) == cells_value(
            indices,
            pointwise(oracle, x),
        ),
    decreases indices.len(),
{
    if indices.len() == 0 {
        let one = seq![1nat];
        lemma_modulus_positive();
        assert(one.skip(1) =~= Seq::<nat>::empty());
        assert(eval_dense(one.skip(1), x) == 0);
        lemma_mul_mod_zero(x);
        lemma_small(1);
    } else {
        lemma_cells_product_value(indices.drop_last(), oracle, x);
        lemma_eval_dense_mul(
            cells_product(indices.drop_last(), oracle),
            oracle(indices.last().0, indices.last().1),
            x,
        );
    }
}

/// The polynomial of a multinomial without denominators takes, at each
/// point, the value of the multinomial there.
pub proof fn lemma_domain_value(
    m: Seq<MonomialView>,
    oracle: spec_fn(nat, int) -> Seq<nat>,
    x: nat,
)
    requires
        undivided(m),
    ensures
        domain_value(m, oracle).is_some(),
        eval_dense(domain_value(m, oracle).unwrap(), x) == multinomial_value(
            m,
            pointwise(oracle, x),
            x,
        ),
    decreases m.len(),
{
    let values = pointwise(oracle, x);
    if m.len() == 0 {
        let zero = seq![0nat];
        lemma_modulus_positive();
        assert(zero.skip(1) =~= Seq::<nat>::empty());
        assert(eval_dense(zero.skip(1), x) == 0);
        lemma_mul_mod_zero(x);
        lemma_small(0);
    } else {
        let last = m.last();
        let rest = m.drop_last();
        assert(undivided(rest)) by {
            assert forall|k: int| 0 <= k < rest.len() implies (
            #[trigger] rest[k]).coefficient.numerator.trace_free()
                && rest[k].coefficient.denominator.len() == 0 by {
                assert(rest[k] == m[k]);
            }
        }
        lemma_domain_value(rest, oracle, x);
        assert(last == m[m.len() - 1]);
        let numerator = last.coefficient.numerator;
        let cells = cells_product(last.indices, oracle);
        let product = mul_threshold(cells, numerator.reify());
        assert(increment_of(last, oracle) == Some(product));
        lemma_cells_product_value(last.indices, oracle, x);
        lemma_trace_free_value(numerator, values, x);
        lemma_eval_dense_mul_sparse(cells, numerator.reify(), x);
        lemma_eval_dense_of(numerator.reify(), x);
        lemma_eval_dense_mul(cells, crate::polynomial::dense::dense_of(numerator.reify()), x);
        lemma_eval_dense_add(domain_value(rest, oracle).unwrap(), product, x);
    }
}

/// The value of a monomial followed by more monomials.
proof fn lemma_multinomial_value_front(
    b: MonomialView,
    m: Seq<MonomialView>,
    oracle: spec_fn(nat, int) -> nat,
    x: nat,
)
    ensures
        multinomial_value(seq![b] + m, oracle, x) == add_mod(
            monomial_value(b, oracle, x),
            multinomial_value(m, oracle, x),
        ),
    decreases m.len(),
{
    let whole = seq![b] + m;
    let first = monomial_value(b, oracle, x);
    if m.len() == 0 {
        assert(whole.drop_last() =~= m);
        assert(whole.last() == b);
        lemma_add_mod_comm(0, first);
    } else {
        lemma_multinomial_value_front(b, m.drop_last(), oracle, x);
        assert(whole.drop_last() =~= seq![b] + m.drop_last());
        assert(whole.last() == m.last());
        lemma_add_mod_assoc(
            first,
            multinomial_value(m.drop_last(), oracle, x),
            monomial_value(m.last(), oracle, x),
        );
    }
}

/// The value of a cell followed by more cells.
proof fn lemma_cells_value_front(t: (nat, int), k: Indices, oracle: spec_fn(nat, int) -> nat)
    ensures
        cells_value(seq![t] + k, oracle) == mul_mod(oracle(t.0, t.1), cells_value(k, oracle)),
    decreases k.len(),
{
    let whole = seq![t] + k;
    if k.len() == 0 {
        assert(whole.drop_last() =~= k);
        assert(whole.last() == t);
        lemma_mul_mod_comm(1, oracle(t.0, t.1));
    } else {
        lemma_cells_value_front(t, k.drop_last(), oracle);
        assert(whole.drop_last() =~= seq![t] + k.drop_last());
        assert(whole.last() == k.last());
        lemma_mul_mod_assoc(
            oracle(t.0, t.1),
            cells_value(k.drop_last(), oracle),
            oracle(k.last().0, k.last().1),
        );
    }
}

/// The cells of a product hold the product of what the factors' cells hold.
proof fn lemma_merge_value(a: Indices, b: Indices, oracle: spec_fn(nat, int) -> nat)
    ensures
        cells_value(merge_indices(a, b), oracle) == mul_mod(
            cells_value(a, oracle),
            cells_value(b, oracle),
        ),
    decreases a.len() + b.len(),
{
    let va = cells_value(a, oracle);
    let vb = cells_value(b, oracle);
    lemma_cells_value_reduced(a, oracle);
    lemma_cells_value_reduced(b, oracle);
    if a.len() == 0 {
        lemma_mul_mod_one(vb);
        lemma_small(vb);
    } else if b.len() == 0 {
        lemma_mul_mod_one(va);
        lemma_small(va);
    } else if index_lt(b[0], a[0]) {
        let rest = b.skip(1);
        assert(b =~= seq![b[0]] + rest);
        lemma_merge_value(a, rest, oracle);
        lemma_cells_value_front(b[0], merge_indices(a, rest), oracle);
        lemma_cells_value_front(b[0], rest, oracle);
        let head = oracle(b[0].0, b[0].1);
        let tail = cells_value(rest, oracle);
        lemma_mul_mod_assoc(head, va, tail);
        lemma_mul_mod_comm(head, va);
        lemma_mul_mod_assoc(va, head, tail);
    } else {
        let rest = a.skip(1);
        assert(a =~= seq![a[0]] + rest);
        lemma_merge_value(rest, b, oracle);
        lemma_cells_value_front(a[0], merge_indices(rest, b), oracle);
        lemma_cells_value_front(a[0], rest, oracle);
        lemma_mul_mod_assoc(oracle(a[0].0, a[0].1), cells_value(rest, oracle), vb);
    }
}

/// The sum of two coefficients without denominators has the sum of their
/// values.
proof fn lemma_plain_sum_value(
    a: FractionView,
    b: FractionView,
    oracle: spec_fn(nat, int) -> nat,
    x: nat,
)
    requires
        a.denominator.len() == 0,
        b.denominator.len() == 0,
    ensures
        sum_of(a, b).numerator.value(oracle, x) == add_mod(
            a.numerator.value(oracle, x),
            b.numerator.value(oracle, x),
        ),
{
    let empty = Seq::<Terms>::empty();
    assert(crate::fraction::difference_factors(a.denominator, b.denominator) =~= empty);
    assert(crate::fraction::difference_factors(b.denominator, a.denominator) =~= empty);
    let one = crate::fraction::product_of(empty);
    assert(one == crate::polynomial::sparse::monomial_terms(1, 0));
    lemma_modulus_positive();
    lemma_eval_monomial(1, 0, x);
    lemma_small(1);
    lemma_mul_mod_one(1);
    assert(eval_terms(one, x) == 1);
    let unit = TraceExpr::Poly(PolyExpr::PeriodicColumn(one));
    assert(unit.value(oracle, x) == 1);
    let va = a.numerator.value(oracle, x);
    let vb = b.numerator.value(oracle, x);
    let left = TraceExpr::Mul(Box::new(a.numerator), Box::new(unit));
    let right = TraceExpr::Mul(Box::new(b.numerator), Box::new(unit));
    assert(left.value(oracle, x) == mul_mod(va, 1));
    assert(right.value(oracle, x) == mul_mod(vb, 1));
    assert(sum_of(a, b).numerator == TraceExpr::Add(Box::new(left), Box::new(right)));
    lemma_mul_mod_one(va);
    lemma_mul_mod_one(vb);
    lemma_mod_absorb(va, vb);
    lemma_mod_absorb(va, vb % modulus());
}

/// Adding a summand to a multinomial adds its value.
proof fn lemma_accumulate_value(
    m: Seq<MonomialView>,
    key: Indices,
    c: FractionView,
    d: nat,
    oracle: spec_fn(nat, int) -> nat,
    x: nat,
)
    requires
        plain(m, d),
        plain_coefficient(c, d),
    ensures
        multinomial_value(accumulate(m, key, c), oracle, x) == add_mod(
            multinomial_value(m, oracle, x),
            monomial_value(MonomialView { indices: key, coefficient: c }, oracle, x),
        ),
    decreases m.len(),
{
    let added = MonomialView { indices: key, coefficient: c };
    let value = monomial_value(added, oracle, x);
    let empty = Seq::<MonomialView>::empty();
    if m.len() == 0 {
        assert(m =~= empty);
        lemma_multinomial_value_front(added, empty, oracle, x);
        assert(seq![added] + empty =~= seq![added]);
        lemma_add_mod_comm(0, value);
    } else {
        let rest = m.skip(1);
        assert(m =~= seq![m[0]] + rest);
        lemma_multinomial_value_front(m[0], rest, oracle, x);
        let head = monomial_value(m[0], oracle, x);
        let tail = multinomial_value(rest, oracle, x);
        assert(plain_coefficient(m[0].coefficient, d));
        if m[0].indices == key {
            let merged = MonomialView {
                indices: key,
                coefficient: sum_of(m[0].coefficient, c),
            };
            lemma_plain_sum_value(m[0].coefficient, c, oracle, x);
            lemma_mul_mod_distributes(
                cells_value(key, oracle),
                m[0].coefficient.numerator.value(oracle, x),
                c.numerator.value(oracle, x),
            );
            lemma_multinomial_value_front(merged, rest, oracle, x);
            lemma_add_mod_assoc(head, value, tail);
            lemma_add_mod_comm(value, tail);
            lemma_add_mod_assoc(head, tail, value);
        } else if crate::trace_multinomial::indices_lt(key, m[0].indices) {
            lemma_multinomial_value_front(added, m, oracle, x);
            lemma_add_mod_comm(value, multinomial_value(m, oracle, x));
        } else {
            assert(plain(rest, d)) by {
                assert forall|i: int| 0 <= i < rest.len() implies plain_coefficient(
                    (#[trigger] rest[i]).coefficient,
                    d,
                ) by {
                    assert(rest[i] == m[i + 1]);
                }
            }
            lemma_accumulate_value(rest, key, c, d, oracle, x);
            lemma_multinomial_value_front(m[0], accumulate(rest, key, c), oracle, x);
            lemma_add_mod_assoc(head, tail, value);
        }
    }
}

/// The accumulated multinomial is plain again.
proof fn lemma_accumulate_plain(m: Seq<MonomialView>, key: Indices, c: FractionView, d: nat)
    requires
        plain(m, d),
        plain_coefficient(c, d),
    ensures
        plain(accumulate(m, key, c), d),
{
    crate::trace_multinomial::lemma_plain_add(
        m,
        single(key, c),
        d,
    );
    let b = single(key, c);
    assert(b.skip(1) =~= Seq::<MonomialView>::empty());
    assert(add_multinomials(accumulate(m, key, c), b.skip(1)) == accumulate(m, key, c));
    assert(add_multinomials(m, b) == accumulate(m, key, c));
}

/// The value of a sum of multinomials is the sum of their values.
proof fn lemma_add_value(
    a: Seq<MonomialView>,
    b: Seq<MonomialView>,
    d: nat,
    oracle: spec_fn(nat, int) -> nat,
    x: nat,
)
    requires
        plain(a, d),
        plain(b, d),
    ensures
        multinomial_value(add_multinomials(a, b), oracle, x) == add_mod(
            multinomial_value(a, oracle, x),
            multinomial_value(b, oracle, x),
        ),
    decreases b.len(),
{
    let va = multinomial_value(a, oracle, x);
    if b.len() == 0 {
        lemma_multinomial_value_reduced(a, oracle, x);
        lemma_add_mod_zero(va);
        lemma_small(va);
    } else {
        let rest = b.skip(1);
        assert(b =~= seq![b[0]] + rest);
        assert(plain_coefficient(b[0].coefficient, d));
        assert(plain(rest, d)) by {
            assert forall|i: int| 0 <= i < rest.len() implies plain_coefficient(
                (#[trigger] rest[i]).coefficient,
                d,
            ) by {
                assert(rest[i] == b[i + 1]);
            }
        }
        let next = accumulate(a, b[0].indices, b[0].coefficient);
        lemma_accumulate_plain(a, b[0].indices, b[0].coefficient, d);
        lemma_accumulate_value(a, b[0].indices, b[0].coefficient, d, oracle, x);
        lemma_add_value(next, rest, d, oracle, x);
        lemma_multinomial_value_front(b[0], rest, oracle, x);
        assert(MonomialView { indices: b[0].indices, coefficient: b[0].coefficient } == b[0]);
        lemma_add_mod_assoc(
            va,
            monomial_value(b[0], oracle, x),
            multinomial_value(rest, oracle, x),
        );
    }
}

/// The products of one monomial with a multinomial add the product of the
/// values.
proof fn lemma_row_value(
    acc: Seq<MonomialView>,
    key: Indices,
    c: FractionView,
    b: Seq<MonomialView>,
    da: nat,
    db: nat,
    oracle: spec_fn(nat, int) -> nat,
    x: nat,
)
    requires
        plain(acc, da + db),
        plain_coefficient(c, da),
        plain(b, db),
    ensures
        plain(mul_row(acc, key, c, b), da + db),
        multinomial_value(mul_row(acc, key, c, b), oracle, x) == add_mod(
            multinomial_value(acc, oracle, x),
            mul_mod(
                monomial_value(MonomialView { indices: key, coefficient: c }, oracle, x),
                multinomial_value(b, oracle, x),
            ),
        ),
    decreases b.len(),
{
    let this = monomial_value(MonomialView { indices: key, coefficient: c }, oracle, x);
    let vacc = multinomial_value(acc, oracle, x);
    if b.len() == 0 {
        lemma_mul_mod_zero(this);
        lemma_multinomial_value_reduced(acc, oracle, x);
        lemma_add_mod_zero(vacc);
        lemma_small(vacc);
    } else {
        let rest = b.skip(1);
        assert(b =~= seq![b[0]] + rest);
        assert(plain_coefficient(b[0].coefficient, db));
        assert(plain(rest, db)) by {
            assert forall|i: int| 0 <= i < rest.len() implies plain_coefficient(
                (#[trigger] rest[i]).coefficient,
                db,
            ) by {
                assert(rest[i] == b[i + 1]);
            }
        }
        let merged = merge_indices(key, b[0].indices);
        let product = product_of_fractions(c, b[0].coefficient);
        assert(plain_coefficient(product, da + db));
        let next = accumulate(acc, merged, product);
        lemma_accumulate_plain(acc, merged, product, da + db);
        lemma_accumulate_value(acc, merged, product, da + db, oracle, x);
        lemma_row_value(next, key, c, rest, da, db, oracle, x);
        lemma_multinomial_value_front(b[0], rest, oracle, x);
        // the value of the product monomial is the product of the values
        lemma_merge_value(key, b[0].indices, oracle);
        let that = monomial_value(b[0], oracle, x);
        lemma_mul_mod_swap(
            cells_value(key, oracle),
            cells_value(b[0].indices, oracle),
            c.numerator.value(oracle, x),
            b[0].coefficient.numerator.value(oracle, x),
        );
        let pair = monomial_value(
            MonomialView { indices: merged, coefficient: product },
            oracle,
            x,
        );
        assert(pair == mul_mod(this, that));
        let vrest = multinomial_value(rest, oracle, x);
        lemma_mul_mod_distributes(this, that, vrest);
        lemma_add_mod_assoc(vacc, pair, mul_mod(this, vrest));
    }
}

/// The products of two multinomials' monomials add the product of the
/// values.
proof fn lemma_rows_value(
    acc: Seq<MonomialView>,
    a: Seq<MonomialView>,
    b: Seq<MonomialView>,
    da: nat,
    db: nat,
    oracle: spec_fn(nat, int) -> nat,
    x: nat,
)
    requires
        plain(acc, da + db),
        plain(a, da),
        plain(b, db),
    ensures
        multinomial_value(mul_rows(acc, a, b), oracle, x) == add_mod(
            multinomial_value(acc, oracle, x),
            mul_mod(multinomial_value(a, oracle, x), multinomial_value(b, oracle, x)),
        ),
    decreases a.len(),
{
    let vacc = multinomial_value(acc, oracle, x);
    let vb = multinomial_value(b, oracle, x);
    if a.len() == 0 {
        lemma_mul_mod_zero(vb);
        lemma_multinomial_value_reduced(acc, oracle, x);
        lemma_add_mod_zero(vacc);
        lemma_small(vacc);
    } else {
        let rest = a.skip(1);
        assert(a =~= seq![a[0]] + rest);
        assert(plain_coefficient(a[0].coefficient, da));
        assert(plain(rest, da)) by {
            assert forall|i: int| 0 <= i < rest.len() implies plain_coefficient(
                (#[trigger] rest[i]).coefficient,
                da,
            ) by {
                assert(rest[i] == a[i + 1]);
            }
        }
        lemma_row_value(acc, a[0].indices, a[0].coefficient, b, da, db, oracle, x);
        let next = mul_row(acc, a[0].indices, a[0].coefficient, b);
        lemma_rows_value(next, rest, b, da, db, oracle, x);
        lemma_multinomial_value_front(a[0], rest, oracle, x);
        assert(MonomialView { indices: a[0].indices, coefficient: a[0].coefficient } == a[0]);
        let first = monomial_value(a[0], oracle, x);
        let vrest = multinomial_value(rest, oracle, x);
        lemma_mul_mod_distributes(vb, first, vrest);
        lemma_add_mod_assoc(vacc, mul_mod(first, vb), mul_mod(vrest, vb));
    }
}

/// The value of a product of multinomials is the product of their values.
proof fn lemma_mul_value(
    a: Seq<MonomialView>,
    b: Seq<MonomialView>,
    da: nat,
    db: nat,
    oracle: spec_fn(nat, int) -> nat,
    x: nat,
)
    requires
        plain(a, da),
        plain(b, db),
    ensures
        multinomial_value(mul_multinomials(a, b), oracle, x) == mul_mod(
            multinomial_value(a, oracle, x),
            multinomial_value(b, oracle, x),
        ),
{
    let product = mul_mod(multinomial_value(a, oracle, x), multinomial_value(b, oracle, x));
    lemma_rows_value(Seq::empty(), a, b, da, db, oracle, x);
    lemma_reduced(multinomial_value(a, oracle, x), multinomial_value(b, oracle, x));
    lemma_add_mod_zero(product);
    lemma_small(product);
}

/// The value of the multinomial of one monomial.
proof fn lemma_single_value(key: Indices, c: FractionView, oracle: spec_fn(nat, int) -> nat, x: nat)
    ensures
        multinomial_value(single(key, c), oracle, x) == monomial_value(
            MonomialView { indices: key, coefficient: c },
            oracle,
            x,
        ),
{
    let m = single(key, c);
    let value = monomial_value(MonomialView { indices: key, coefficient: c }, oracle, x);
    assert(m.drop_last() =~= Seq::<MonomialView>::empty());
    assert(multinomial_value(m.drop_last(), oracle, x) == 0);
    lemma_reduced(cells_value(key, oracle), c.numerator.value(oracle, x));
    lemma_add_mod_zero(value);
    lemma_small(value);
}

/// Taking out the monomials whose coefficient is zero keeps the value.
pub proof fn lemma_prune_value(m: Seq<MonomialView>, oracle: spec_fn(nat, int) -> nat, x: nat)
    ensures
        multinomial_value(prune(m), oracle, x) == multinomial_value(m, oracle, x),
    decreases m.len(),
{
    lemma_modulus_positive();
    if m.len() > 0 {
        let front = m.drop_last();
        let last = m.last();
        lemma_prune_value(front, oracle, x);
        if zero_coefficient(last.coefficient) {
            let numerator = last.coefficient.numerator;
            lemma_trace_free_value(numerator, oracle, x);
            assert(eval_terms(numerator.reify(), x) == 0);
            assert(numerator.value(oracle, x) == 0);
            lemma_mul_mod_comm(cells_value(last.indices, oracle), 0);
            lemma_mul_mod_zero(cells_value(last.indices, oracle));
            assert(monomial_value(last, oracle, x) == 0);
            lemma_multinomial_value_reduced(front, oracle, x);
            lemma_add_mod_zero(multinomial_value(front, oracle, x));
            lemma_small(multinomial_value(front, oracle, x));
        } else {
            let kept = prune(front).push(last);
            assert(kept.drop_last() =~= prune(front));
            assert(kept.last() == last);
        }
    }
}

/// Expanding keeps the value: the multinomial of an expression has the
/// value of the expression, whatever the trace cells hold.
pub proof fn lemma_multinomial_value(e: TraceExpr, oracle: spec_fn(nat, int) -> nat, x: nat)
    ensures
        multinomial_value(multinomial_of(e), oracle, x) == e.value(oracle, x),
    decreases e,
{
    lemma_modulus_positive();
    let none = Seq::<(nat, int)>::empty();
    match e {
        TraceExpr::Trace(i, j) => {
            let key = seq![(i, j)];
            let one = crate::trace_multinomial::plain_fraction(PolyExpr::Constant(1));
            lemma_single_value(key, one, oracle, x);
            assert(key.drop_last() =~= none);
            assert(key.last() == (i, j));
            assert(cells_value(key.drop_last(), oracle) == 1);
            lemma_small(1);
            lemma_mul_mod_one(oracle(i, j));
            lemma_reduced(oracle(i, j), oracle(i, j));
            lemma_mul_mod_one(oracle(i, j) % modulus());
            lemma_small(oracle(i, j) % modulus());
        },
        TraceExpr::Poly(p) => {
            let plain = crate::trace_multinomial::plain_fraction(p);
            lemma_prune_value(single(none, plain), oracle, x);
            lemma_single_value(none, plain, oracle, x);
            lemma_poly_value_reduced(p, x);
            lemma_mul_mod_one(p.value(x));
            lemma_small(p.value(x));
        },
        TraceExpr::Neg(a) => {
            let sign = (modulus() - 1) as nat;
            lemma_multinomial_value(*a, oracle, x);
            lemma_multinomial_plain(*a);
            lemma_mul_value(minus_one(), multinomial_of(*a), 0, a.degree(1), oracle, x);
            lemma_prune_value(mul_multinomials(minus_one(), multinomial_of(*a)), oracle, x);
            lemma_single_value(
                none,
                crate::trace_multinomial::plain_fraction(PolyExpr::Constant(sign)),
                oracle,
                x,
            );
            lemma_small(sign);
            lemma_mul_mod_one(sign);
            lemma_neg_mod_is_mul(a.value(oracle, x));
        },
        TraceExpr::Add(a, b) => {
            lemma_multinomial_value(*a, oracle, x);
            lemma_multinomial_value(*b, oracle, x);
            lemma_multinomial_plain(*a);
            lemma_multinomial_plain(*b);
            let d = e.degree(1);
            assert(plain(multinomial_of(*a), d)) by {
                assert forall|i: int| 0 <= i < multinomial_of(*a).len() implies plain_coefficient(
                    (#[trigger] multinomial_of(*a)[i]).coefficient,
                    d,
                ) by {
                    assert(plain_coefficient(multinomial_of(*a)[i].coefficient, a.degree(1)));
                }
            }
            assert(plain(multinomial_of(*b), d)) by {
                assert forall|i: int| 0 <= i < multinomial_of(*b).len() implies plain_coefficient(
                    (#[trigger] multinomial_of(*b)[i]).coefficient,
                    d,
                ) by {
                    assert(plain_coefficient(multinomial_of(*b)[i].coefficient, b.degree(1)));
                }
            }
            lemma_add_value(multinomial_of(*a), multinomial_of(*b), d, oracle, x);
            lemma_prune_value(add_multinomials(multinomial_of(*a), multinomial_of(*b)), oracle, x);
        },
        TraceExpr::Mul(a, b) => {
            lemma_multinomial_value(*a, oracle, x);
            lemma_multinomial_value(*b, oracle, x);
            lemma_multinomial_plain(*a);
            lemma_multinomial_plain(*b);
            lemma_mul_value(
                multinomial_of(*a),
                multinomial_of(*b),
                a.degree(1),
                b.degree(1),
                oracle,
                x,
            );
            lemma_prune_value(mul_multinomials(multinomial_of(*a), multinomial_of(*b)), oracle, x);
        },
    }
}

/// The evaluators agree: over the domain an expression is a polynomial, and
/// at each point `x` that polynomial takes the value that the expression
/// has at `x` where each trace cell holds the value of its polynomial at
/// `x`.
pub proof fn lemma_evaluators_agree(e: TraceExpr, oracle: spec_fn(nat, int) -> Seq<nat>, x: nat)
    ensures
        domain_value(multinomial_of(e), oracle).is_some(),
        eval_dense(domain_value(multinomial_of(e), oracle).unwrap(), x) == e.value(
            pointwise(oracle, x),
            x,
        ),
{
    let m = multinomial_of(e);
    lemma_multinomial_plain(e);
    assert(undivided(m)) by {
        assert forall|k: int| 0 <= k < m.len() implies (
        #[trigger] m[k]).coefficient.numerator.trace_free() && m[k].coefficient.denominator.len()
            == 0 by {
            assert(plain_coefficient(m[k].coefficient, e.degree(1)));
        }
    }
    lemma_domain_value(m, oracle, x);
    lemma_multinomial_value(e, pointwise(oracle, x), x);
}


/// Over the domain a bucket is the polynomial that takes its share at each
/// point where its denominator has an inverse.
pub proof fn lemma_bucket_agrees(b: BucketView, oracle: spec_fn(nat, int) -> Seq<nat>, x: nat)
    requires
        divides_at(b.denominator, x),
        bucket_polynomial(b, oracle).is_some(),
    ensures
        eval_dense(bucket_polynomial(b, oracle).unwrap(), x) == share(
            b.value,
            b.numerator,
            b.denominator,
            pointwise(oracle, x),
            x,
        ),
{
    let values = pointwise(oracle, x);
    lemma_evaluators_agree(b.value, oracle, x);
    let base = domain_value(multinomial_of(b.value), oracle).unwrap();
    let numerator = b.numerator.reify();
    let denominator = b.denominator.reify();
    let product = mul_threshold(base, numerator);
    let quotient = bucket_polynomial(b, oracle).unwrap();
    assert(exact_quotient(product, denominator) == Some(quotient));
    lemma_eval_dense_mul_sparse(base, numerator, x);
    lemma_eval_dense_of(numerator, x);
    lemma_eval_dense_mul(base, crate::polynomial::dense::dense_of(numerator), x);
    lemma_reify_value(b.numerator, x);
    lemma_reify_value(b.denominator, x);
    lemma_exact_quotient(product, denominator, x);
    let v = b.value.value(values, x);
    let n = b.numerator.value(x);
    let d = b.denominator.value(x);
    let q = eval_dense(quotient, x);
    assert(mul_mod(v, n) == mul_mod(q, d));
    lemma_mul_mod_assoc(q, d, inv_mod(d));
    lemma_eval_dense_reduced(quotient, x);
    lemma_mul_mod_one(q);
    lemma_small(q);
}

/// The evaluators agree on grouped constraints: where the buckets are a
/// polynomial over the domain, that polynomial takes, at each point where
/// every denominator has an inverse, the value of the buckets there. The
/// denominators have their inverses wherever `GroupedConstraints::eval`
/// gives a value, which it does wherever none of them vanishes.
pub proof fn lemma_grouped_evaluators_agree(
    g: Seq<BucketView>,
    oracle: spec_fn(nat, int) -> Seq<nat>,
    x: nat,
)
    requires
        buckets_divide_at(g, x),
        grouped_polynomial(g, oracle).is_some(),
    ensures
        grouped_value(g, pointwise(oracle, x), x) == Some(
            eval_dense(grouped_polynomial(g, oracle).unwrap(), x),
        ),
    decreases g.len(),
{
    lemma_modulus_positive();
    if g.len() == 0 {
        let zero = seq![0nat];
        assert(zero.skip(1) =~= Seq::<nat>::empty());
        assert(eval_dense(zero.skip(1), x) == 0);
        lemma_mul_mod_zero(x);
        lemma_small(0);
    } else {
        let rest = g.drop_last();
        let last = g.last();
        assert(last == g[g.len() - 1]);
        assert forall|k: int| 0 <= k < rest.len() implies divides_at(
            (#[trigger] rest[k]).denominator,
            x,
        ) by {
            assert(rest[k] == g[k]);
        }
        assert(divides_at(last.denominator, x));
        lemma_grouped_evaluators_agree(rest, oracle, x);
        lemma_bucket_agrees(last, oracle, x);
        lemma_eval_dense_add(
            grouped_polynomial(rest, oracle).unwrap(),
            bucket_polynomial(last, oracle).unwrap(),
            x,
        );
        let d = last.denominator.value(x);
        if d == 0 {
            lemma_mul_mod_zero(inv_mod(d));
        }
    }
}

/// The polynomial over the domain of the first `count` constraints taken
/// one by one: each adds the polynomial of its two expressions, multiplied
/// by its own numerator and divided by its own denominator. There is none
/// where a division is not exact.
pub open spec fn ungrouped_polynomial(
    constraints: Seq<ConstraintView>,
    coefficients: Seq<nat>,
    trace_length: nat,
    target: int,
    count: nat,
    oracle: spec_fn(nat, int) -> Seq<nat>,
) -> Option<Seq<nat>>
    decreases count,
{
    if count == 0 {
        Some(seq![0nat])
    } else {
        let i = (count - 1) as int;
        match (
            ungrouped_polynomial(constraints, coefficients, trace_length, target, i as nat, oracle),
            bucket_polynomial(
                own_bucket(constraints, coefficients, trace_length, target, i),
                oracle,
            ),
        ) {
            (Some(sum), Some(p)) => Some(dense_add(sum, p)),
            _ => None,
        }
    }
}

/// The bucket that a constraint would have to itself: its two expressions
/// added, under its numerator and its denominator.
pub open spec fn own_bucket(
    constraints: Seq<ConstraintView>,
    coefficients: Seq<nat>,
    trace_length: nat,
    target: int,
    i: int,
) -> BucketView {
    let c = constraints[i];
    let adjustment = (target - c.degree(trace_length)) as nat;
    BucketView {
        numerator: c.numerator,
        denominator: c.denominator,
        value: TraceExpr::Add(
            Box::new(plain_term(coefficients[2 * i], c.base)),
            Box::new(adjusted_term(coefficients[2 * i + 1], c.base, adjustment)),
        ),
    }
}

/// The denominators of the first `count` constraints can be divided by at
/// `x`.
pub open spec fn constraints_divide_at(constraints: Seq<ConstraintView>, count: nat, x: nat)
    -> bool {
    forall|i: int| 0 <= i < count ==> divides_at((#[trigger] constraints[i]).denominator, x)
}

proof fn lemma_group_insert_divides(
    g: Seq<BucketView>,
    numerator: PolyExpr,
    denominator: PolyExpr,
    value: TraceExpr,
    x: nat,
)
    requires
        buckets_divide_at(g, x),
        divides_at(denominator, x),
    ensures
        buckets_divide_at(group_insert(g, numerator, denominator, value), x),
    decreases g.len(),
{
    let r = group_insert(g, numerator, denominator, value);
    if g.len() == 0 {
    } else if same_key(g[0], numerator, denominator) {
        assert forall|k: int| 0 <= k < r.len() implies divides_at(
            (#[trigger] r[k]).denominator,
            x,
        ) by {
            if k > 0 {
                assert(r[k] == g[k]);
            } else {
                assert(r[0].denominator == g[0].denominator);
            }
        }
    } else if key_before(numerator, denominator, g[0]) {
        assert forall|k: int| 0 <= k < r.len() implies divides_at(
            (#[trigger] r[k]).denominator,
            x,
        ) by {
            if k > 0 {
                assert(r[k] == g[k - 1]);
            }
        }
    } else {
        let rest = g.skip(1);
        assert(buckets_divide_at(rest, x)) by {
            assert forall|k: int| 0 <= k < rest.len() implies divides_at(
                (#[trigger] rest[k]).denominator,
                x,
            ) by {
                assert(rest[k] == g[k + 1]);
            }
        }
        lemma_group_insert_divides(rest, numerator, denominator, value, x);
        let tail = group_insert(rest, numerator, denominator, value);
        assert forall|k: int| 0 <= k < r.len() implies divides_at(
            (#[trigger] r[k]).denominator,
            x,
        ) by {
            if k > 0 {
                assert(r[k] == tail[k - 1]);
            } else {
                assert(r[0] == g[0]);
            }
        }
    }
}

proof fn lemma_combined_divides(
    constraints: Seq<ConstraintView>,
    coefficients: Seq<nat>,
    trace_length: nat,
    target: int,
    count: nat,
    x: nat,
)
    requires
        count <= constraints.len(),
        constraints_divide_at(constraints, count, x),
    ensures
        buckets_divide_at(combined(constraints, coefficients, trace_length, target, count), x),
    decreases count,
{
    if count > 0 {
        let i = (count - 1) as int;
        let c = constraints[i];
        let adjustment = (target - c.degree(trace_length)) as nat;
        let before = combined(constraints, coefficients, trace_length, target, i as nat);
        lemma_combined_divides(constraints, coefficients, trace_length, target, i as nat, x);
        let first = plain_term(coefficients[2 * i], c.base);
        let second = adjusted_term(coefficients[2 * i + 1], c.base, adjustment);
        lemma_group_insert_divides(before, c.numerator, c.denominator, first, x);
        lemma_group_insert_divides(
            group_insert(before, c.numerator, c.denominator, first),
            c.numerator,
            c.denominator,
            second,
            x,
        );
    }
}

/// At each point where every denominator has an inverse, the polynomial of
/// the constraints taken one by one has the value of the constraints taken
/// one by one.
pub proof fn lemma_ungrouped_polynomial_value(
    constraints: Seq<ConstraintView>,
    coefficients: Seq<nat>,
    trace_length: nat,
    target: int,
    count: nat,
    oracle: spec_fn(nat, int) -> Seq<nat>,
    x: nat,
)
    requires
        count <= constraints.len(),
        constraints_divide_at(constraints, count, x),
        ungrouped_polynomial(
            constraints,
            coefficients,
            trace_length,
            target,
            count,
            oracle,
        ).is_some(),
    ensures
        eval_dense(
            ungrouped_polynomial(
                constraints,
                coefficients,
                trace_length,
                target,
                count,
                oracle,
            ).unwrap(),
            x,
        ) == ungrouped_value(
            constraints,
            coefficients,
            trace_length,
            target,
            count,
            pointwise(oracle, x),
            x,
        ),
    decreases count,
{
    lemma_modulus_positive();
    let values = pointwise(oracle, x);
    if count == 0 {
        let zero = seq![0nat];
        assert(zero.skip(1) =~= Seq::<nat>::empty());
        assert(eval_dense(zero.skip(1), x) == 0);
        lemma_mul_mod_zero(x);
        lemma_small(0);
    } else {
        let i = (count - 1) as int;
        let c = constraints[i];
        let own = own_bucket(constraints, coefficients, trace_length, target, i);
        let adjustment = (target - c.degree(trace_length)) as nat;
        let first = plain_term(coefficients[2 * i], c.base);
        let second = adjusted_term(coefficients[2 * i + 1], c.base, adjustment);
        lemma_ungrouped_polynomial_value(
            constraints,
            coefficients,
            trace_length,
            target,
            i as nat,
            oracle,
            x,
        );
        let sum = ungrouped_polynomial(
            constraints,
            coefficients,
            trace_length,
            target,
            i as nat,
            oracle,
        ).unwrap();
        let p = bucket_polynomial(own, oracle).unwrap();
        assert(divides_at(c.denominator, x));
        lemma_bucket_agrees(own, oracle, x);
        lemma_share_of_sum(first, second, c.numerator, c.denominator, values, x);
        lemma_eval_dense_add(sum, p, x);
        lemma_add_mod_assoc(
            eval_dense(sum, x),
            share(first, c.numerator, c.denominator, values, x),
            share(second, c.numerator, c.denominator, values, x),
        );
    }
}

/// Sharing one multiplication and one division per bucket changes nothing:
/// over the domain the buckets of a combination and its constraints taken
/// one by one are polynomials that take the same value at each point where
/// every denominator has an inverse.
pub proof fn lemma_grouping_keeps_polynomial(
    constraints: Seq<ConstraintView>,
    coefficients: Seq<nat>,
    trace_length: nat,
    target: int,
    count: nat,
    oracle: spec_fn(nat, int) -> Seq<nat>,
    x: nat,
)
    requires
        count <= constraints.len(),
        constraints_divide_at(constraints, count, x),
        grouped_polynomial(
            combined(constraints, coefficients, trace_length, target, count),
            oracle,
        ).is_some(),
        ungrouped_polynomial(
            constraints,
            coefficients,
            trace_length,
            target,
            count,
            oracle,
        ).is_some(),
    ensures
        eval_dense(
            grouped_polynomial(
                combined(constraints, coefficients, trace_length, target, count),
                oracle,
            ).unwrap(),
            x,
        ) == eval_dense(
            ungrouped_polynomial(
                constraints,
                coefficients,
                trace_length,
                target,
                count,
                oracle,
            ).unwrap(),
            x,
        ),
{
    lemma_modulus_positive();
    let g = combined(constraints, coefficients, trace_length, target, count);
    lemma_combined_divides(constraints, coefficients, trace_length, target, count, x);
    lemma_grouped_evaluators_agree(g, oracle, x);
    assert forall|i: int| 0 <= i < count implies (
    #[trigger] constraints[i]).denominator.value(x) != 0 by {
        let d = constraints[i].denominator.value(x);
        assert(divides_at(constraints[i].denominator, x));
        if d == 0 {
            lemma_mul_mod_zero(inv_mod(d));
        }
    }
    lemma_grouped_is_ungrouped(
        constraints,
        coefficients,
        trace_length,
        target,
        count,
        pointwise(oracle, x),
        x,
    );
    lemma_ungrouped_polynomial_value(
        constraints,
        coefficients,
        trace_length,
        target,
        count,
        oracle,
        x,
    );
}

} // verus!
