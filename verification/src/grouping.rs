//! Grouping keeps the value: the buckets of a combination have the value of
//! the constraints taken one by one.

use crate::constraint::{
    adjusted_term, combined, group_insert, grouped_value, key_before, plain_term, same_key,
    BucketView, ConstraintView,
};
use crate::expression::{lemma_reify_value, PolyExpr, TraceExpr};
use crate::modular::{
    add_mod, div_mod, inv_mod, lemma_add_mod_assoc, lemma_add_mod_comm, lemma_add_mod_swap,
    lemma_mod_absorb, lemma_modulus_positive, lemma_mul_mod_distributes, lemma_mul_mod_one,
    lemma_small, modulus, mul_mod, pow_mod,
};
use vstd::prelude::*;

verus! {

/// What an expression adds to the value at `x` as a constraint of its own:
/// it is multiplied by the numerator and divided by the denominator.
pub open spec fn share(
    value: TraceExpr,
    numerator: PolyExpr,
    denominator: PolyExpr,
    oracle: spec_fn(nat, int) -> nat,
    x: nat,
) -> nat {
    div_mod(mul_mod(value.value(oracle, x), numerator.value(x)), denominator.value(x))
}

/// The value at `x` of the first `count` constraints taken one by one: each
/// adds its two expressions, over its own numerator and denominator.
pub open spec fn ungrouped_value(
    constraints: Seq<ConstraintView>,
    coefficients: Seq<nat>,
    trace_length: nat,
    target: int,
    count: nat,
    oracle: spec_fn(nat, int) -> nat,
    x: nat,
) -> nat
    decreases count,
{
    if count == 0 {
        0
    } else {
        let i = (count - 1) as int;
        let c = constraints[i];
        let adjustment = (target - c.degree(trace_length)) as nat;
        add_mod(
            add_mod(
                ungrouped_value(
                    constraints,
                    coefficients,
                    trace_length,
                    target,
                    i as nat,
                    oracle,
                    x,
                ),
                share(
                    plain_term(coefficients[2 * i], c.base),
                    c.numerator,
                    c.denominator,
                    oracle,
                    x,
                ),
            ),
            share(
                adjusted_term(coefficients[2 * i + 1], c.base, adjustment),
                c.numerator,
                c.denominator,
                oracle,
                x,
            ),
        )
    }
}

/// The share of a sum is the sum of the shares.
pub proof fn lemma_share_of_sum(
    a: TraceExpr,
    b: TraceExpr,
    numerator: PolyExpr,
    denominator: PolyExpr,
    oracle: spec_fn(nat, int) -> nat,
    x: nat,
)
    ensures
        share(TraceExpr::Add(Box::new(a), Box::new(b)), numerator, denominator, oracle, x)
            == add_mod(
            share(a, numerator, denominator, oracle, x),
            share(b, numerator, denominator, oracle, x),
        ),
{
    let n = numerator.value(x);
    let inverse = inv_mod(denominator.value(x));
    lemma_mul_mod_distributes(n, a.value(oracle, x), b.value(oracle, x));
    lemma_mul_mod_distributes(
        inverse,
        mul_mod(a.value(oracle, x), n),
        mul_mod(b.value(oracle, x), n),
    );
}

/// The value of a bucket followed by more buckets.
proof fn lemma_grouped_value_front(
    b: BucketView,
    g: Seq<BucketView>,
    oracle: spec_fn(nat, int) -> nat,
    x: nat,
)
    ensures
        grouped_value(seq![b] + g, oracle, x) == match grouped_value(g, oracle, x) {
            Some(sum) => if b.denominator.value(x) == 0 {
                None
            } else {
                Some(add_mod(sum, share(b.value, b.numerator, b.denominator, oracle, x)))
            },
            None => None,
        },
    decreases g.len(),
{
    let whole = seq![b] + g;
    if g.len() == 0 {
        assert(whole.drop_last() =~= g);
        assert(whole.last() == b);
    } else {
        lemma_grouped_value_front(b, g.drop_last(), oracle, x);
        assert(whole.drop_last() =~= seq![b] + g.drop_last());
        assert(whole.last() == g.last());
        match grouped_value(g.drop_last(), oracle, x) {
            Some(sum) => {
                let first = share(b.value, b.numerator, b.denominator, oracle, x);
                let last = share(
                    g.last().value,
                    g.last().numerator,
                    g.last().denominator,
                    oracle,
                    x,
                );
                lemma_add_mod_assoc(sum, first, last);
                lemma_add_mod_assoc(sum, last, first);
                lemma_add_mod_comm(first, last);
            },
            None => {},
        }
    }
}

/// Putting an expression into the buckets adds its share to their value.
pub proof fn lemma_group_insert_value(
    g: Seq<BucketView>,
    numerator: PolyExpr,
    denominator: PolyExpr,
    value: TraceExpr,
    oracle: spec_fn(nat, int) -> nat,
    x: nat,
)
    requires
        denominator.value(x) != 0,
        grouped_value(g, oracle, x).is_some(),
    ensures
        grouped_value(group_insert(g, numerator, denominator, value), oracle, x) == Some(
            add_mod(
                grouped_value(g, oracle, x).unwrap(),
                share(value, numerator, denominator, oracle, x),
            ),
        ),
    decreases g.len(),
{
    let bucket = BucketView { numerator, denominator, value };
    let added = share(value, numerator, denominator, oracle, x);
    let empty = Seq::<BucketView>::empty();
    if g.len() == 0 {
        lemma_grouped_value_front(bucket, empty, oracle, x);
        assert(seq![bucket] + empty =~= seq![bucket]);
        assert(g =~= empty);
    } else {
        let rest = g.skip(1);
        assert(g =~= seq![g[0]] + rest);
        lemma_grouped_value_front(g[0], rest, oracle, x);
        let tail = grouped_value(rest, oracle, x).unwrap();
        let head = share(g[0].value, g[0].numerator, g[0].denominator, oracle, x);
        if same_key(g[0], numerator, denominator) {
            let merged = BucketView {
                numerator: g[0].numerator,
                denominator: g[0].denominator,
                value: TraceExpr::Add(Box::new(g[0].value), Box::new(value)),
            };
            lemma_reify_value(numerator, x);
            lemma_reify_value(g[0].numerator, x);
            lemma_reify_value(denominator, x);
            lemma_reify_value(g[0].denominator, x);
            lemma_share_of_sum(g[0].value, value, g[0].numerator, g[0].denominator, oracle, x);
            lemma_grouped_value_front(merged, rest, oracle, x);
            lemma_add_mod_assoc(tail, head, added);
        } else if key_before(numerator, denominator, g[0]) {
            lemma_grouped_value_front(bucket, g, oracle, x);
        } else {
            lemma_group_insert_value(rest, numerator, denominator, value, oracle, x);
            lemma_grouped_value_front(
                g[0],
                group_insert(rest, numerator, denominator, value),
                oracle,
                x,
            );
            lemma_add_mod_assoc(tail, added, head);
            lemma_add_mod_assoc(tail, head, added);
            lemma_add_mod_comm(added, head);
        }
    }
}

/// Grouping keeps the value: where no denominator vanishes at `x`, the
/// buckets of a combination have the value of its constraints taken one by
/// one.
pub proof fn lemma_grouped_is_ungrouped(
    constraints: Seq<ConstraintView>,
    coefficients: Seq<nat>,
    trace_length: nat,
    target: int,
    count: nat,
    oracle: spec_fn(nat, int) -> nat,
    x: nat,
)
    requires
        count <= constraints.len(),
        forall|i: int| 0 <= i < count ==> (#[trigger] constraints[i]).denominator.value(x) != 0,
    ensures
        grouped_value(
            combined(constraints, coefficients, trace_length, target, count),
            oracle,
            x,
        ) == Some(
            ungrouped_value(constraints, coefficients, trace_length, target, count, oracle, x),
        ),
    decreases count,
{
    if count > 0 {
        let i = (count - 1) as int;
        let c = constraints[i];
        let adjustment = (target - c.degree(trace_length)) as nat;
        let before = combined(constraints, coefficients, trace_length, target, i as nat);
        lemma_grouped_is_ungrouped(
            constraints,
            coefficients,
            trace_length,
            target,
            i as nat,
            oracle,
            x,
        );
        let first = plain_term(coefficients[2 * i], c.base);
        let second = adjusted_term(coefficients[2 * i + 1], c.base, adjustment);
        lemma_group_insert_value(before, c.numerator, c.denominator, first, oracle, x);
        lemma_group_insert_value(
            group_insert(before, c.numerator, c.denominator, first),
            c.numerator,
            c.denominator,
            second,
            oracle,
            x,
        );
    }
}

/// The expression that two constraints with one key leave in their bucket:
/// the two expressions of the first, then the two of the second.
pub open spec fn shared_value(
    first: ConstraintView,
    second: ConstraintView,
    coefficients: Seq<nat>,
    trace_length: nat,
    target: int,
) -> TraceExpr {
    let lift = (target - first.degree(trace_length)) as nat;
    let other_lift = (target - second.degree(trace_length)) as nat;
    TraceExpr::Add(
        Box::new(
            TraceExpr::Add(
                Box::new(
                    TraceExpr::Add(
                        Box::new(plain_term(coefficients[0], first.base)),
                        Box::new(adjusted_term(coefficients[1], first.base, lift)),
                    ),
                ),
                Box::new(plain_term(coefficients[2], second.base)),
            ),
        ),
        Box::new(adjusted_term(coefficients[3], second.base, other_lift)),
    )
}

/// Two constraints whose numerators stand for one polynomial, and whose
/// denominators do, share one bucket: the combination of the two has that
/// bucket and no other, under the numerator and the denominator of the
/// first, and it holds the four expressions added up.
pub proof fn lemma_shared_key_shares_bucket(
    constraints: Seq<ConstraintView>,
    coefficients: Seq<nat>,
    trace_length: nat,
    target: int,
)
    requires
        constraints.len() == 2,
        constraints[0].numerator.reify() == constraints[1].numerator.reify(),
        constraints[0].denominator.reify() == constraints[1].denominator.reify(),
    ensures
        combined(constraints, coefficients, trace_length, target, 2) == seq![
            BucketView {
                numerator: constraints[0].numerator,
                denominator: constraints[0].denominator,
                value: shared_value(
                    constraints[0],
                    constraints[1],
                    coefficients,
                    trace_length,
                    target,
                ),
            },
        ],
{
    let first = constraints[0];
    let second = constraints[1];
    let n = first.numerator;
    let d = first.denominator;
    let lift = (target - first.degree(trace_length)) as nat;
    let other_lift = (target - second.degree(trace_length)) as nat;
    let plain = plain_term(coefficients[0], first.base);
    let lifted = adjusted_term(coefficients[1], first.base, lift);
    let other_plain = plain_term(coefficients[2], second.base);
    let other_lifted = adjusted_term(coefficients[3], second.base, other_lift);
    let none = Seq::<BucketView>::empty();
    let start = combined(constraints, coefficients, trace_length, target, 0);
    assert(start == none);
    let one = group_insert(start, n, d, plain);
    assert(one == seq![BucketView { numerator: n, denominator: d, value: plain }]);
    let two = group_insert(one, n, d, lifted);
    assert(one.skip(1) =~= none);
    let pair = TraceExpr::Add(Box::new(plain), Box::new(lifted));
    assert(two =~= seq![BucketView { numerator: n, denominator: d, value: pair }]);
    assert(combined(constraints, coefficients, trace_length, target, 1) == two);
    let three = group_insert(two, second.numerator, second.denominator, other_plain);
    assert(two.skip(1) =~= none);
    let triple = TraceExpr::Add(Box::new(pair), Box::new(other_plain));
    assert(three =~= seq![BucketView { numerator: n, denominator: d, value: triple }]);
    let four = group_insert(three, second.numerator, second.denominator, other_lifted);
    assert(three.skip(1) =~= none);
    let all = TraceExpr::Add(Box::new(triple), Box::new(other_lifted));
    assert(four =~= seq![BucketView { numerator: n, denominator: d, value: all }]);
    assert(combined(constraints, coefficients, trace_length, target, 2) == four);
}

/// With every coefficient one and one lift for both, the shared bucket
/// holds the sum of the two bases plus that sum times the power of `X`:
/// `(a + b) + (a + b) * X^lift`, at every point and whatever the trace cells
/// hold.
pub proof fn lemma_shared_value(
    first: ConstraintView,
    second: ConstraintView,
    trace_length: nat,
    target: int,
    oracle: spec_fn(nat, int) -> nat,
    x: nat,
)
    requires
        first.degree(trace_length) == second.degree(trace_length),
    ensures
        shared_value(first, second, seq![1nat, 1nat, 1nat, 1nat], trace_length, target).value(
            oracle,
            x,
        ) == add_mod(
            add_mod(first.base.value(oracle, x), second.base.value(oracle, x)),
            mul_mod(
                add_mod(first.base.value(oracle, x), second.base.value(oracle, x)),
                pow_mod(x % modulus(), (target - first.degree(trace_length)) as nat),
            ),
        ),
{
    lemma_modulus_positive();
    let lift = (target - first.degree(trace_length)) as nat;
    let u = first.base.value(oracle, x);
    let v = second.base.value(oracle, x);
    let w = pow_mod(x % modulus(), lift);
    let ones = seq![1nat, 1nat, 1nat, 1nat];
    let plain = plain_term(ones[0], first.base);
    let lifted = adjusted_term(ones[1], first.base, lift);
    let other_plain = plain_term(ones[2], second.base);
    let other_lifted = adjusted_term(ones[3], second.base, lift);
    lemma_small(1);
    lemma_mul_mod_one(u);
    lemma_mul_mod_one(v);
    let one = TraceExpr::Poly(PolyExpr::Constant(1));
    let power = TraceExpr::Poly(PolyExpr::Pow(Box::new(PolyExpr::X), lift));
    assert(one.value(oracle, x) == 1);
    assert(PolyExpr::X.value(x) == x % modulus());
    assert(power.value(oracle, x) == w);
    assert(plain.value(oracle, x) == u % modulus());
    assert(other_plain.value(oracle, x) == v % modulus());
    lemma_mod_absorb(u, w);
    lemma_mod_absorb(v, w);
    let a = mul_mod(u, w);
    let b = mul_mod(v, w);
    assert(lifted.value(oracle, x) == a);
    assert(other_lifted.value(oracle, x) == b);
    let held = shared_value(first, second, ones, trace_length, target);
    let inner = TraceExpr::Add(Box::new(plain), Box::new(lifted));
    let middle = TraceExpr::Add(Box::new(inner), Box::new(other_plain));
    assert(held == TraceExpr::Add(Box::new(middle), Box::new(other_lifted)));
    assert(inner.value(oracle, x) == add_mod(u % modulus(), a));
    assert(middle.value(oracle, x) == add_mod(inner.value(oracle, x), v % modulus()));
    assert(held.value(oracle, x) == add_mod(middle.value(oracle, x), b));
    let um = u % modulus();
    let vm = v % modulus();
    lemma_add_mod_assoc(add_mod(um, a), vm, b);
    lemma_add_mod_swap(um, a, vm, b);
    lemma_mod_absorb(u, vm);
    lemma_mod_absorb(u, v);
    lemma_mul_mod_distributes(w, u, v);
}

} // verus!
