//! Rational constraints and their combination.
//!
//! A [`Constraint`] stands for `base * numerator / denominator`. Constraints
//! are combined into [`GroupedConstraints`]: each is multiplied by two
//! coefficients, one of them together with the power of `X` that lifts it to
//! the common degree, and those with the same numerator and denominator are
//! added up in one bucket, so that the division is done once for them all.

use crate::agreement::{lemma_grouped_evaluators_agree, pointwise};
use crate::domain::{answers_dense, domain_value, mul_assign, mul_threshold};
use crate::error::Error;
use crate::expression::{answers, Expression, Other, PolyExpr, TraceExpr};
use crate::field::FieldElement;
use crate::modular::{add_mod, div_mod, inv_mod, is_inverse, mul_mod};
use crate::polynomial::dense::{dense_add, eval_dense, exact_quotient, DensePolynomial};
use crate::polynomial::sparse::{canonical, lemma_poly_lt_order, poly_lt, SparsePolynomial};
use crate::trace_multinomial::multinomial_of;
use vstd::prelude::*;

verus! {

/// No more constraints than this are combined.
pub const CONSTRAINT_CAP: usize = 30;

/// What a constraint holds.
pub struct ConstraintView {
    pub base: TraceExpr,
    pub denominator: PolyExpr,
    pub numerator: PolyExpr,
}

impl ConstraintView {
    /// The degree of `base * numerator / denominator`.
    pub open spec fn degree(self, trace_length: nat) -> int {
        self.base.degree(trace_length) + self.numerator.degree() - self.denominator.degree()
    }

    /// The degrees of the three parts are within the machine's range.
    pub open spec fn fits(self, trace_length: nat) -> bool {
        &&& self.base.degree(trace_length) + self.numerator.degree() <= usize::MAX
        &&& self.denominator.degree() <= usize::MAX
    }

    /// The value at `x`, where `oracle` tells what each trace cell holds;
    /// there is none where the denominator vanishes.
    pub open spec fn value(self, oracle: spec_fn(nat, int) -> nat, x: nat) -> Option<nat> {
        if self.denominator.value(x) == 0 {
            None
        } else {
            Some(
                div_mod(
                    mul_mod(self.base.value(oracle, x), self.numerator.value(x)),
                    self.denominator.value(x),
                ),
            )
        }
    }
}

/// The constraint `base * numerator / denominator`.
#[derive(Debug)]
pub struct Constraint {
    pub base: Expression,
    pub denominator: Other,
    pub numerator: Other,
}

impl View for Constraint {
    type V = ConstraintView;

    open spec fn view(&self) -> ConstraintView {
        ConstraintView {
            base: self.base@,
            denominator: self.denominator@,
            numerator: self.numerator@,
        }
    }
}

/// What a slice of constraints holds.
pub open spec fn constraints_view(v: Seq<Constraint>) -> Seq<ConstraintView> {
    Seq::new(v.len(), |i: int| v[i]@)
}

/// What a slice of field elements holds.
pub open spec fn elements_view(v: Seq<FieldElement>) -> Seq<nat> {
    Seq::new(v.len(), |i: int| v[i]@)
}

/// The least power of two that is at least `n`, looked for from `p` on.
pub open spec fn power_of_two_from(n: nat, p: nat) -> nat
    decreases
            (if p < n {
                n - p
            } else {
                0
            }),
{
    if p >= n || p == 0 {
        p
    } else {
        power_of_two_from(n, 2 * p)
    }
}

/// The least power of two that is at least `n`.
pub open spec fn next_power_of_two(n: nat) -> nat {
    power_of_two_from(n, 1)
}

/// The largest degree among the constraints; zero where there is none.
pub open spec fn max_degree(constraints: Seq<ConstraintView>, trace_length: nat) -> int
    decreases constraints.len(),
{
    if constraints.len() == 0 {
        0
    } else {
        let rest = max_degree(constraints.drop_last(), trace_length);
        let last = constraints.last().degree(trace_length);
        if rest < last {
            last
        } else {
            rest
        }
    }
}

/// The degree that the combination lifts every constraint to: one less than
/// the next power of two.
pub open spec fn target_degree(constraints: Seq<ConstraintView>, trace_length: nat) -> int {
    next_power_of_two(max_degree(constraints, trace_length) as nat) - 1
}

/// Every constraint has degrees within the machine's range, and a degree
/// that is not negative.
pub open spec fn constraints_fit(constraints: Seq<ConstraintView>, trace_length: nat) -> bool {
    forall|i: int|
        0 <= i < constraints.len() ==> (#[trigger] constraints[i]).fits(trace_length)
            && constraints[i].degree(trace_length) >= 0
}

/// One of the first `count` constraints has a degree above `target`: its
/// degree adjustment would be negative.
pub open spec fn exceeds_target(
    constraints: Seq<ConstraintView>,
    trace_length: nat,
    target: int,
    count: nat,
) -> bool {
    exists|i: int|
        0 <= i < count && i < constraints.len() && (#[trigger] constraints[i]).degree(
            trace_length,
        ) > target
}

/// What a bucket holds: the numerator and the denominator that its
/// constraints share, and the sum of their bases.
pub struct BucketView {
    pub numerator: PolyExpr,
    pub denominator: PolyExpr,
    pub value: TraceExpr,
}

/// Two pairs of a numerator and a denominator are the same key where they
/// stand for the same polynomials.
pub open spec fn same_key(b: BucketView, numerator: PolyExpr, denominator: PolyExpr) -> bool {
    b.numerator.reify() == numerator.reify() && b.denominator.reify() == denominator.reify()
}

/// The order of keys: by the numerator's polynomial, then by the
/// denominator's.
pub open spec fn key_before(numerator: PolyExpr, denominator: PolyExpr, b: BucketView) -> bool {
    poly_lt(numerator.reify(), b.numerator.reify()) || (numerator.reify() == b.numerator.reify()
        && poly_lt(denominator.reify(), b.denominator.reify()))
}

/// The buckets with one more expression: it is added to the bucket of its
/// key, or becomes a bucket at its place in the order of the keys.
pub open spec fn group_insert(
    g: Seq<BucketView>,
    numerator: PolyExpr,
    denominator: PolyExpr,
    value: TraceExpr,
) -> Seq<BucketView>
    decreases g.len(),
{
    let bucket = BucketView { numerator, denominator, value };
    if g.len() == 0 {
        seq![bucket]
    } else if same_key(g[0], numerator, denominator) {
        seq![
            BucketView {
                numerator: g[0].numerator,
                denominator: g[0].denominator,
                value: TraceExpr::Add(Box::new(g[0].value), Box::new(value)),
            },
        ] + g.skip(1)
    } else if key_before(numerator, denominator, g[0]) {
        seq![bucket] + g
    } else {
        seq![g[0]] + group_insert(g.skip(1), numerator, denominator, value)
    }
}

/// The buckets are in the order of their keys, and no two have the same key.
pub open spec fn buckets_increasing(g: Seq<BucketView>) -> bool {
    forall|i: int, j: int|
        0 <= i < j < g.len() ==> key_before(
            (#[trigger] g[i]).numerator,
            g[i].denominator,
            #[trigger] g[j],
        )
}

/// Every bucket comes after the key `low`.
pub open spec fn buckets_above(g: Seq<BucketView>, low: BucketView) -> bool {
    forall|k: int| 0 <= k < g.len() ==> key_before(low.numerator, low.denominator, #[trigger] g[k])
}

/// The order of keys is transitive, and of two different keys one comes
/// before the other.
pub proof fn lemma_key_order(a: BucketView, b: BucketView, c: BucketView)
    ensures
        key_before(a.numerator, a.denominator, b) && key_before(b.numerator, b.denominator, c)
            ==> key_before(a.numerator, a.denominator, c),
        !same_key(b, a.numerator, a.denominator) ==> key_before(a.numerator, a.denominator, b)
            || key_before(b.numerator, b.denominator, a),
        same_key(b, a.numerator, a.denominator) ==> (key_before(
            a.numerator,
            a.denominator,
            c,
        ) <==> key_before(b.numerator, b.denominator, c)) && (key_before(
            c.numerator,
            c.denominator,
            a,
        ) <==> key_before(c.numerator, c.denominator, b)),
{
    let (an, ad) = (a.numerator.reify(), a.denominator.reify());
    let (bn, bd) = (b.numerator.reify(), b.denominator.reify());
    let (cn, cd) = (c.numerator.reify(), c.denominator.reify());
    lemma_poly_lt_order(an, bn, cn);
    lemma_poly_lt_order(ad, bd, cd);
    lemma_poly_lt_order(bn, an, an);
    lemma_poly_lt_order(bd, ad, ad);
}

proof fn lemma_group_insert_above(
    g: Seq<BucketView>,
    numerator: PolyExpr,
    denominator: PolyExpr,
    value: TraceExpr,
    low: BucketView,
)
    requires
        buckets_above(g, low),
        key_before(low.numerator, low.denominator, BucketView { numerator, denominator, value }),
    ensures
        buckets_above(group_insert(g, numerator, denominator, value), low),
    decreases g.len(),
{
    let r = group_insert(g, numerator, denominator, value);
    if g.len() == 0 {
    } else if same_key(g[0], numerator, denominator) {
        assert forall|k: int| 0 <= k < r.len() implies key_before(
            low.numerator,
            low.denominator,
            #[trigger] r[k],
        ) by {
            if k > 0 {
                assert(r[k] == g[k]);
            } else {
                assert(key_before(low.numerator, low.denominator, g[0]));
            }
        }
    } else if key_before(numerator, denominator, g[0]) {
        assert forall|k: int| 0 <= k < r.len() implies key_before(
            low.numerator,
            low.denominator,
            #[trigger] r[k],
        ) by {
            if k > 0 {
                assert(r[k] == g[k - 1]);
            }
        }
    } else {
        let rest = g.skip(1);
        assert(buckets_above(rest, low)) by {
            assert forall|k: int| 0 <= k < rest.len() implies key_before(
                low.numerator,
                low.denominator,
                #[trigger] rest[k],
            ) by {
                assert(rest[k] == g[k + 1]);
            }
        }
        lemma_group_insert_above(rest, numerator, denominator, value, low);
        let tail = group_insert(rest, numerator, denominator, value);
        assert forall|k: int| 0 <= k < r.len() implies key_before(
            low.numerator,
            low.denominator,
            #[trigger] r[k],
        ) by {
            if k > 0 {
                assert(r[k] == tail[k - 1]);
            } else {
                assert(r[0] == g[0]);
            }
        }
    }
}

/// Putting an expression into buckets that are in order leaves them in
/// order.
pub proof fn lemma_group_insert_sorted(
    g: Seq<BucketView>,
    numerator: PolyExpr,
    denominator: PolyExpr,
    value: TraceExpr,
)
    requires
        buckets_increasing(g),
    ensures
        buckets_increasing(group_insert(g, numerator, denominator, value)),
    decreases g.len(),
{
    let r = group_insert(g, numerator, denominator, value);
    let added = BucketView { numerator, denominator, value };
    if g.len() == 0 {
    } else if same_key(g[0], numerator, denominator) {
        assert forall|i: int, j: int| 0 <= i < j < r.len() implies key_before(
            (#[trigger] r[i]).numerator,
            r[i].denominator,
            #[trigger] r[j],
        ) by {
            assert(r[j] == g[j]);
            assert(key_before(g[i].numerator, g[i].denominator, g[j]));
        }
    } else if key_before(numerator, denominator, g[0]) {
        assert forall|i: int, j: int| 0 <= i < j < r.len() implies key_before(
            (#[trigger] r[i]).numerator,
            r[i].denominator,
            #[trigger] r[j],
        ) by {
            assert(r[j] == g[j - 1]);
            if i > 0 {
                assert(r[i] == g[i - 1]);
            } else if j > 1 {
                assert(key_before(g[0].numerator, g[0].denominator, g[j - 1]));
                lemma_key_order(added, g[0], g[j - 1]);
            }
        }
    } else {
        let rest = g.skip(1);
        assert(buckets_increasing(rest) && buckets_above(rest, g[0])) by {
            assert forall|i: int, j: int| 0 <= i < j < rest.len() implies key_before(
                (#[trigger] rest[i]).numerator,
                rest[i].denominator,
                #[trigger] rest[j],
            ) by {
                assert(rest[i] == g[i + 1]);
                assert(rest[j] == g[j + 1]);
            }
            assert forall|k: int| 0 <= k < rest.len() implies key_before(
                g[0].numerator,
                g[0].denominator,
                #[trigger] rest[k],
            ) by {
                assert(rest[k] == g[k + 1]);
            }
        }
        lemma_key_order(added, g[0], g[0]);
        lemma_group_insert_sorted(rest, numerator, denominator, value);
        lemma_group_insert_above(rest, numerator, denominator, value, g[0]);
        let tail = group_insert(rest, numerator, denominator, value);
        assert forall|i: int, j: int| 0 <= i < j < r.len() implies key_before(
            (#[trigger] r[i]).numerator,
            r[i].denominator,
            #[trigger] r[j],
        ) by {
            assert(r[j] == tail[j - 1]);
            if i > 0 {
                assert(r[i] == tail[i - 1]);
            } else {
                assert(r[0] == g[0]);
            }
        }
    }
}

/// The buckets of a combination are in the order of their keys, and no two
/// have the same key.
pub proof fn lemma_combined_sorted(
    constraints: Seq<ConstraintView>,
    coefficients: Seq<nat>,
    trace_length: nat,
    target: int,
    count: nat,
)
    ensures
        buckets_increasing(combined(constraints, coefficients, trace_length, target, count)),
    decreases count,
{
    if count > 0 {
        let i = (count - 1) as int;
        let c = constraints[i];
        let adjustment = (target - c.degree(trace_length)) as nat;
        let before = combined(constraints, coefficients, trace_length, target, i as nat);
        lemma_combined_sorted(constraints, coefficients, trace_length, target, i as nat);
        let first = plain_term(coefficients[2 * i], c.base);
        lemma_group_insert_sorted(before, c.numerator, c.denominator, first);
        lemma_group_insert_sorted(
            group_insert(before, c.numerator, c.denominator, first),
            c.numerator,
            c.denominator,
            adjusted_term(coefficients[2 * i + 1], c.base, adjustment),
        );
    }
}

/// The first of the two expressions that a constraint contributes:
/// `coefficient * base`.
pub open spec fn plain_term(coefficient: nat, base: TraceExpr) -> TraceExpr {
    TraceExpr::Mul(Box::new(TraceExpr::Poly(PolyExpr::Constant(coefficient))), Box::new(base))
}

/// The second of the two: `coefficient * base * X^adjustment`.
pub open spec fn adjusted_term(coefficient: nat, base: TraceExpr, adjustment: nat) -> TraceExpr {
    TraceExpr::Mul(
        Box::new(plain_term(coefficient, base)),
        Box::new(TraceExpr::Poly(PolyExpr::Pow(Box::new(PolyExpr::X), adjustment))),
    )
}

/// The buckets after the first `count` constraints are incorporated, where
/// every constraint is lifted to the degree `target`.
pub open spec fn combined(
    constraints: Seq<ConstraintView>,
    coefficients: Seq<nat>,
    trace_length: nat,
    target: int,
    count: nat,
) -> Seq<BucketView>
    decreases count,
{
    if count == 0 {
        Seq::empty()
    } else {
        let i = (count - 1) as int;
        let c = constraints[i];
        let adjustment = (target - c.degree(trace_length)) as nat;
        group_insert(
            group_insert(
                combined(constraints, coefficients, trace_length, target, i as nat),
                c.numerator,
                c.denominator,
                plain_term(coefficients[2 * i], c.base),
            ),
            c.numerator,
            c.denominator,
            adjusted_term(coefficients[2 * i + 1], c.base, adjustment),
        )
    }
}

/// The number of constraints that are incorporated where no more than
/// `cap` are.
pub open spec fn incorporated(constraints: Seq<ConstraintView>, cap: nat) -> nat {
    if constraints.len() > cap {
        cap
    } else {
        constraints.len()
    }
}

/// The value of the buckets at `x`: the sum over the buckets of the value
/// times the numerator over the denominator. There is none where a
/// denominator vanishes.
pub open spec fn grouped_value(g: Seq<BucketView>, oracle: spec_fn(nat, int) -> nat, x: nat)
    -> Option<nat>
    decreases g.len(),
{
    if g.len() == 0 {
        Some(0)
    } else {
        let b = g.last();
        match grouped_value(g.drop_last(), oracle, x) {
            Some(sum) => if b.denominator.value(x) == 0 {
                None
            } else {
                Some(
                    add_mod(
                        sum,
                        div_mod(
                            mul_mod(b.value.value(oracle, x), b.numerator.value(x)),
                            b.denominator.value(x),
                        ),
                    ),
                )
            },
            None => None,
        }
    }
}

/// What one bucket adds to the result over the domain: its expression's
/// polynomial times the numerator, divided by the denominator. There is none
/// where the division is not exact.
pub open spec fn bucket_polynomial(b: BucketView, oracle: spec_fn(nat, int) -> Seq<nat>) -> Option<
    Seq<nat>,
> {
    match domain_value(multinomial_of(b.value), oracle) {
        Some(p) => exact_quotient(mul_threshold(p, b.numerator.reify()), b.denominator.reify()),
        None => None,
    }
}

/// The polynomial of the buckets over the domain: the sum of what each
/// bucket adds, from zero on.
pub open spec fn grouped_polynomial(g: Seq<BucketView>, oracle: spec_fn(nat, int) -> Seq<nat>)
    -> Option<Seq<nat>>
    decreases g.len(),
{
    if g.len() == 0 {
        Some(seq![0nat])
    } else {
        match (grouped_polynomial(g.drop_last(), oracle), bucket_polynomial(g.last(), oracle)) {
            (Some(sum), Some(p)) => Some(dense_add(sum, p)),
            _ => None,
        }
    }
}

/// The expressions of the constraints that share a numerator and a
/// denominator, added up.
#[derive(Debug)]
pub struct Bucket {
    numerator: Other,
    denominator: Other,
    numerator_key: SparsePolynomial,
    denominator_key: SparsePolynomial,
    value: Expression,
}

impl View for Bucket {
    type V = BucketView;

    closed spec fn view(&self) -> BucketView {
        BucketView {
            numerator: self.numerator@,
            denominator: self.denominator@,
            value: self.value@,
        }
    }
}

impl Bucket {
    #[verifier::type_invariant]
    spec fn keyed(self) -> bool {
        &&& self.numerator_key@ == self.numerator@.reify()
        &&& self.denominator_key@ == self.denominator@.reify()
        &&& self.numerator@.degree() <= usize::MAX
        &&& self.denominator@.degree() <= usize::MAX
    }

    /// The numerator that the constraints of the bucket share.
    pub fn numerator(&self) -> (r: &Other)
        ensures
            r@ == self@.numerator,
            r@.degree() <= usize::MAX,
    {
        proof {
            use_type_invariant(self);
        }
        &self.numerator
    }

    /// The denominator that the constraints of the bucket share.
    pub fn denominator(&self) -> (r: &Other)
        ensures
            r@ == self@.denominator,
            r@.degree() <= usize::MAX,
    {
        proof {
            use_type_invariant(self);
        }
        &self.denominator
    }

    /// The sum of the expressions that were put in the bucket.
    pub fn value(&self) -> (r: &Expression)
        ensures
            r@ == self@.value,
    {
        &self.value
    }

    /// A copy of the bucket.
    pub fn duplicate(&self) -> (r: Bucket)
        ensures
            r@ == self@,
    {
        proof {
            use_type_invariant(self);
        }
        Bucket {
            numerator: self.numerator.duplicate(),
            denominator: self.denominator.duplicate(),
            numerator_key: self.numerator_key.duplicate(),
            denominator_key: self.denominator_key.duplicate(),
            value: self.value.duplicate(),
        }
    }
}

/// A copy of the buckets.
fn duplicate_buckets(buckets: &Vec<Bucket>) -> (r: Vec<Bucket>)
    ensures
        buckets_view(r@) == buckets_view(buckets@),
{
    let ghost g = buckets_view(buckets@);
    let mut r: Vec<Bucket> = Vec::new();
    let mut k: usize = 0;
    while k < buckets.len()
        invariant
            k <= buckets.len(),
            g == buckets_view(buckets@),
            buckets_view(r@) == g.take(k as int),
        decreases buckets.len() - k,
    {
        let ghost before = buckets_view(r@);
        r.push(buckets[k].duplicate());
        proof {
            assert(buckets_view(r@) =~= before.push(g[k as int]));
            assert(g.take(k + 1) =~= before.push(g[k as int]));
        }
        k += 1;
    }
    proof {
        assert(g.take(k as int) =~= g);
    }
    r
}

/// What a vector of buckets holds.
pub open spec fn buckets_view(v: Seq<Bucket>) -> Seq<BucketView> {
    Seq::new(v.len(), |i: int| v[i]@)
}

/// Constraints grouped by their numerator and denominator.
#[derive(Debug)]
pub struct GroupedConstraints {
    buckets: Vec<Bucket>,
}

impl View for GroupedConstraints {
    type V = Seq<BucketView>;

    closed spec fn view(&self) -> Seq<BucketView> {
        buckets_view(self.buckets@)
    }
}

impl Constraint {
    /// A copy of the constraint.
    pub fn duplicate(&self) -> (r: Constraint)
        ensures
            r@ == self@,
    {
        Constraint {
            base: self.base.duplicate(),
            denominator: self.denominator.duplicate(),
            numerator: self.numerator.duplicate(),
        }
    }

    /// The degree of `base * numerator / denominator`, where the trace has
    /// `trace_length` rows.
    pub fn degree(&self, trace_length: usize) -> (d: usize)
        requires
            trace_length >= 1,
            self@.fits(trace_length as nat),
            self@.degree(trace_length as nat) >= 0,
        ensures
            d == self@.degree(trace_length as nat),
    {
        self.base.degree(trace_length) + self.numerator.degree() - self.denominator.degree()
    }

    /// The value at `x`, where `trace_table` gives what each trace cell
    /// holds: base and numerator are multiplied and divided by the
    /// denominator, which must not vanish at `x`.
    pub fn eval<F: Fn(usize, isize) -> FieldElement>(
        &self,
        trace_table: &F,
        x: &FieldElement,
    ) -> (r: Result<FieldElement, Error>)
        requires
            forall|i: usize, j: isize|
                self@.base.reads(i as nat, j as int) ==> #[trigger] trace_table.requires((i, j)),
        ensures
            forall|oracle: spec_fn(nat, int) -> nat| #[trigger]
                answers(*trace_table, oracle) ==> match r {
                    Ok(v) => self@.value(oracle, x@) == Some(v@),
                    Err(e) => e == Error::DivisionByZero && self@.value(oracle, x@).is_none(),
                },
            r.is_err() <==> self@.denominator.value(x@) == 0,
    {
        let top = self.base.eval(trace_table, x).mul(&self.numerator.eval(x));
        match top.div(&self.denominator.eval(x)) {
            Some(v) => Ok(v),
            None => Err(Error::DivisionByZero),
        }
    }
}

impl GroupedConstraints {
    /// The buckets are in the order of their keys, and no two have the same
    /// key.
    #[verifier::type_invariant]
    spec fn in_order(self) -> bool {
        buckets_increasing(self@)
    }

    /// No buckets.
    pub fn new() -> (r: GroupedConstraints)
        ensures
            r@ == Seq::<BucketView>::empty(),
    {
        let r = GroupedConstraints { buckets: Vec::new() };
        assert(r@ =~= Seq::<BucketView>::empty());
        r
    }

    /// The number of buckets. They are in the order of their keys, and no
    /// two have the same key.
    pub fn len(&self) -> (n: usize)
        ensures
            n == self@.len(),
            buckets_increasing(self@),
    {
        proof {
            use_type_invariant(self);
        }
        self.buckets.len()
    }

    /// The bucket at a position, counted in the order of the keys.
    pub fn bucket(&self, k: usize) -> (r: &Bucket)
        requires
            k < self@.len(),
        ensures
            r@ == self@[k as int],
    {
        &self.buckets[k]
    }

    /// Adds an expression to the bucket of the given numerator and
    /// denominator.
    pub fn insert(&mut self, key: (Other, Other), value: Expression)
        requires
            key.0@.degree() <= usize::MAX,
            key.1@.degree() <= usize::MAX,
        ensures
            final(self)@ == group_insert(old(self)@, key.0@, key.1@, value@),
    {
        let (numerator, denominator) = key;
        let numerator_key = numerator.to_sparse();
        let denominator_key = denominator.to_sparse();
        let ghost g = self@;
        let ghost nv = numerator@;
        let ghost dv = denominator@;
        let n = self.buckets.len();
        let mut k: usize = 0;
        let mut found = false;
        proof {
            assert(g.skip(0) =~= g);
            assert(g.take(0) + group_insert(g, nv, dv, value@) =~= group_insert(g, nv, dv, value@));
        }
        while k < n && !found
            invariant
                k <= n,
                n == self.buckets.len(),
                g == self@,
                numerator_key@ == nv.reify(),
                denominator_key@ == dv.reify(),
                g.take(k as int) + group_insert(g.skip(k as int), nv, dv, value@) == group_insert(
                    g,
                    nv,
                    dv,
                    value@,
                ),
                found ==> k < n && (same_key(g[k as int], nv, dv) || key_before(
                    nv,
                    dv,
                    g[k as int],
                )),
            decreases n - k + if found {
                0int
            } else {
                1int
            },
        {
            let ghost gk = g.skip(k as int);
            let bucket = &self.buckets[k];
            proof {
                use_type_invariant(bucket);
                assert(gk[0] == g[k as int]);
                assert(gk.skip(1) =~= g.skip(k + 1));
            }
            let same_numerator = numerator_key.equals(&bucket.numerator_key);
            if (same_numerator && denominator_key.equals(&bucket.denominator_key))
                || numerator_key.less_than(&bucket.numerator_key) || (same_numerator
                && denominator_key.less_than(&bucket.denominator_key)) {
                found = true;
            } else {
                proof {
                    assert(g.take(k + 1) + group_insert(g.skip(k + 1), nv, dv, value@) =~= g.take(
                        k as int,
                    ) + group_insert(gk, nv, dv, value@));
                }
                k += 1;
            }
        }
        let ghost gk = g.skip(k as int);
        let mut same = false;
        if k < n {
            let bucket = &self.buckets[k];
            proof {
                use_type_invariant(bucket);
                assert(gk[0] == g[k as int]);
                assert(gk.skip(1) =~= g.skip(k + 1));
            }
            same = numerator_key.equals(&bucket.numerator_key) && denominator_key.equals(
                &bucket.denominator_key,
            );
        }
        let mut buckets = duplicate_buckets(&self.buckets);
        if same {
            let bucket = &self.buckets[k];
            proof {
                use_type_invariant(bucket);
            }
            let replaced = Bucket {
                numerator: bucket.numerator.duplicate(),
                denominator: bucket.denominator.duplicate(),
                numerator_key: bucket.numerator_key.duplicate(),
                denominator_key: bucket.denominator_key.duplicate(),
                value: bucket.value.duplicate().add(value),
            };
            proof {
                assert(buckets_view(buckets@.update(k as int, replaced)) =~= g.take(k as int) + (
                seq![replaced@] + g.skip(k + 1)));
            }
            buckets.set(k, replaced);
        } else {
            let added = Bucket { numerator, denominator, numerator_key, denominator_key, value };
            proof {
                assert(group_insert(gk, nv, dv, value@) =~= seq![added@] + gk);
                assert(buckets_view(buckets@.insert(k as int, added)) =~= g.take(k as int) + (
                seq![added@] + gk));
            }
            buckets.insert(k, added);
        }
        proof {
            use_type_invariant(&*self);
            lemma_group_insert_sorted(g, nv, dv, value@);
        }
        *self = GroupedConstraints { buckets };
    }
}


/// The power of two that is found is at least the number and at least the
/// one that the search began with.
pub proof fn lemma_power_of_two_from(n: nat, p: nat)
    ensures
        power_of_two_from(n, p) >= p,
        power_of_two_from(n, p) >= n || p == 0,
    decreases
            (if p < n {
                n - p
            } else {
                0
            }),
{
    if p < n && p != 0 {
        lemma_power_of_two_from(n, 2 * p);
    }
}

/// The least power of two that is at least `n`.
fn power_of_two_at_least(n: usize) -> (r: usize)
    requires
        next_power_of_two(n as nat) <= usize::MAX,
    ensures
        r == next_power_of_two(n as nat),
        r >= 1,
{
    let mut p: usize = 1;
    while p < n
        invariant
            p >= 1,
            power_of_two_from(n as nat, p as nat) == next_power_of_two(n as nat),
            next_power_of_two(n as nat) <= usize::MAX,
        decreases
                (if p < n {
                    n - p
                } else {
                    0
                }),
    {
        proof {
            lemma_power_of_two_from(n as nat, 2 * p as nat);
        }
        p = 2 * p;
    }
    p
}

/// Where a denominator vanishes, the buckets have no value.
pub proof fn lemma_grouped_value_none(
    g: Seq<BucketView>,
    oracle: spec_fn(nat, int) -> nat,
    x: nat,
    k: int,
)
    requires
        0 <= k < g.len(),
        g[k].denominator.value(x) == 0,
    ensures
        grouped_value(g, oracle, x).is_none(),
    decreases g.len(),
{
    if k < g.len() - 1 {
        lemma_grouped_value_none(g.drop_last(), oracle, x, k);
    }
}

/// Where a bucket has no polynomial, the buckets have none.
pub proof fn lemma_grouped_polynomial_none(
    g: Seq<BucketView>,
    oracle: spec_fn(nat, int) -> Seq<nat>,
    k: int,
)
    requires
        0 <= k < g.len(),
        bucket_polynomial(g[k], oracle).is_none(),
    ensures
        grouped_polynomial(g, oracle).is_none(),
    decreases g.len(),
{
    if k < g.len() - 1 {
        lemma_grouped_polynomial_none(g.drop_last(), oracle, k);
    }
}

/// Whether the cell of `column` at `offset` occurs in an expression of the
/// buckets.
pub open spec fn grouped_reads(g: Seq<BucketView>, column: nat, offset: int) -> bool {
    exists|k: int| 0 <= k < g.len() && (#[trigger] g[k]).value.reads(column, offset)
}

/// The denominator can be divided by at `x`: it stands for a polynomial in
/// canonical form, and its value at `x` has an inverse.
pub open spec fn divides_at(denominator: PolyExpr, x: nat) -> bool {
    canonical(denominator.reify()) && is_inverse(
        denominator.value(x),
        inv_mod(denominator.value(x)),
    )
}

/// Every denominator of the buckets can be divided by at `x`.
pub open spec fn buckets_divide_at(g: Seq<BucketView>, x: nat) -> bool {
    forall|k: int| 0 <= k < g.len() ==> divides_at((#[trigger] g[k]).denominator, x)
}

/// A denominator of the buckets vanishes at `x`.
pub open spec fn some_denominator_vanishes(g: Seq<BucketView>, x: nat) -> bool {
    exists|k: int| 0 <= k < g.len() && (#[trigger] g[k]).denominator.value(x) == 0
}

/// Every expression in the buckets has a degree in `X` within the machine's
/// range.
pub open spec fn values_fit(g: Seq<BucketView>) -> bool {
    forall|k: int| 0 <= k < g.len() ==> (#[trigger] g[k]).value.degree(1) <= usize::MAX
}

impl GroupedConstraints {
    /// The value at `x`, where `trace_table` gives what each trace cell
    /// holds: the sum over the buckets of the expression times the
    /// numerator over the denominator. There is a value if and only if no
    /// denominator vanishes at `x`; every denominator then has an inverse,
    /// and the value is that of the polynomial over the domain at `x`, where
    /// each cell holds the value of its polynomial at `x`.
    pub fn eval<F: Fn(usize, isize) -> FieldElement>(
        &self,
        trace_table: &F,
        x: &FieldElement,
    ) -> (r: Result<FieldElement, Error>)
        requires
            forall|i: usize, j: isize|
                grouped_reads(self@, i as nat, j as int) ==> #[trigger] trace_table.requires(
                    (i, j),
                ),
        ensures
            forall|oracle: spec_fn(nat, int) -> nat| #[trigger]
                answers(*trace_table, oracle) ==> match r {
                    Ok(v) => grouped_value(self@, oracle, x@) == Some(v@),
                    Err(e) => grouped_value(self@, oracle, x@).is_none(),
                },
            r.is_err() <==> some_denominator_vanishes(self@, x@),
            r.is_err() ==> r == Err::<FieldElement, Error>(Error::DivisionByZero),
            r.is_ok() ==> buckets_divide_at(self@, x@),
            forall|polynomials: spec_fn(nat, int) -> Seq<nat>| #[trigger]
                answers(*trace_table, pointwise(polynomials, x@)) ==> match (
                    r,
                    grouped_polynomial(self@, polynomials),
                ) {
                    (Ok(v), Some(p)) => v@ == eval_dense(p, x@),
                    _ => true,
                },
    {
        let ghost g = self@;
        let mut sum = FieldElement::zero();
        let mut k: usize = 0;
        proof {
            assert(g.take(0) =~= Seq::<BucketView>::empty());
        }
        while k < self.buckets.len()
            invariant
                k <= self.buckets.len(),
                g == self@,
                forall|i: usize, j: isize|
                    grouped_reads(g, i as nat, j as int) ==> #[trigger] trace_table.requires(
                        (i, j),
                    ),
                forall|l: int| 0 <= l < k ==> (#[trigger] g[l]).denominator.value(x@) != 0,
                buckets_divide_at(g.take(k as int), x@),
                forall|oracle: spec_fn(nat, int) -> nat| #[trigger]
                    answers(*trace_table, oracle) ==> grouped_value(g.take(k as int), oracle, x@)
                        == Some(sum@),
            decreases self.buckets.len() - k,
        {
            let bucket = &self.buckets[k];
            proof {
                assert(g.take(k + 1).drop_last() =~= g.take(k as int));
                assert(g.take(k + 1).last() == g[k as int]);
                assert(bucket@ == g[k as int]);
            }
            let key = &bucket.denominator_key;
            let value = bucket.value.eval(trace_table, x);
            let top = value.mul(&bucket.numerator.eval(x));
            let ghost before = sum@;
            match top.div(&bucket.denominator.eval(x)) {
                Some(quotient) => {
                    sum = sum.add(&quotient);
                    proof {
                        use_type_invariant(bucket);
                        use_type_invariant(key);
                        let front = g.take(k as int);
                        let next = g.take(k + 1);
                        assert forall|l: int| 0 <= l < next.len() implies divides_at(
                            (#[trigger] next[l]).denominator,
                            x@,
                        ) by {
                            if l < k {
                                assert(next[l] == front[l]);
                            }
                        }
                        assert forall|oracle: spec_fn(nat, int) -> nat| #[trigger]
                            answers(*trace_table, oracle) implies grouped_value(
                            g.take(k + 1),
                            oracle,
                            x@,
                        ) == Some(sum@) by {
                            assert(grouped_value(g.take(k as int), oracle, x@) == Some(before));
                            assert(value@ == g[k as int].value.value(oracle, x@));
                        }
                    }
                },
                None => {
                    proof {
                        assert forall|oracle: spec_fn(nat, int) -> nat| #[trigger]
                            answers(*trace_table, oracle) implies grouped_value(
                            g,
                            oracle,
                            x@,
                        ).is_none() by {
                            lemma_grouped_value_none(g, oracle, x@, k as int);
                        }
                        assert(g[k as int].denominator.value(x@) == 0);
                    }
                    return Err(Error::DivisionByZero);
                },
            }
            k += 1;
        }
        proof {
            assert(g.take(k as int) =~= g);
            assert forall|polynomials: spec_fn(nat, int) -> Seq<nat>| #[trigger]
                answers(
                    *trace_table,
                    pointwise(polynomials, x@),
                ) && grouped_polynomial(g, polynomials).is_some() implies sum@ == eval_dense(
                grouped_polynomial(g, polynomials).unwrap(),
                x@,
            ) by {
                lemma_grouped_evaluators_agree(g, polynomials, x@);
                assert(grouped_value(g, pointwise(polynomials, x@), x@) == Some(sum@));
            }
        }
        Ok(sum)
    }

    /// The polynomial over the domain, where `trace_table` gives the
    /// polynomial of each trace cell: for each bucket the polynomial of its
    /// expression is multiplied by the numerator and divided by the
    /// denominator, once, and the quotients are added. There is none where
    /// a division is not exact.
    pub fn eval_on_domain<G: Fn(usize, isize) -> DensePolynomial>(&self, trace_table: &G) -> (r:
        Option<DensePolynomial>)
        requires
            forall|i: usize, j: isize|
                grouped_reads(self@, i as nat, j as int) ==> #[trigger] trace_table.requires(
                    (i, j),
                ),
            values_fit(self@),
        ensures
            forall|oracle: spec_fn(nat, int) -> Seq<nat>| #[trigger]
                answers_dense(*trace_table, oracle) ==> match r {
                    Some(p) => grouped_polynomial(self@, oracle) == Some(p@),
                    None => grouped_polynomial(self@, oracle).is_none(),
                },
    {
        let ghost g = self@;
        let mut sum = DensePolynomial::constant(FieldElement::zero());
        let mut k: usize = 0;
        proof {
            assert(g.take(0) =~= Seq::<BucketView>::empty());
        }
        while k < self.buckets.len()
            invariant
                k <= self.buckets.len(),
                g == self@,
                values_fit(g),
                forall|i: usize, j: isize|
                    grouped_reads(g, i as nat, j as int) ==> #[trigger] trace_table.requires(
                        (i, j),
                    ),
                forall|oracle: spec_fn(nat, int) -> Seq<nat>| #[trigger]
                    answers_dense(*trace_table, oracle) ==> grouped_polynomial(
                        g.take(k as int),
                        oracle,
                    ) == Some(sum@),
            decreases self.buckets.len() - k,
        {
            let bucket = &self.buckets[k];
            proof {
                use_type_invariant(bucket);
                assert(g.take(k + 1).drop_last() =~= g.take(k as int));
                assert(g.take(k + 1).last() == g[k as int]);
                assert(bucket@ == g[k as int]);
                assert(g[k as int].value.degree(1) <= usize::MAX);
            }
            let mut product = bucket.value.eval_on_domain(trace_table);
            let ghost base = product@;
            mul_assign(&mut product, bucket.numerator_key.duplicate());
            let ghost before = sum@;
            match product.div_sparse(&bucket.denominator_key) {
                Some(quotient) => {
                    sum.add_assign(&quotient);
                    proof {
                        assert forall|oracle: spec_fn(nat, int) -> Seq<nat>| #[trigger]
                            answers_dense(*trace_table, oracle) implies grouped_polynomial(
                            g.take(k + 1),
                            oracle,
                        ) == Some(sum@) by {
                            assert(grouped_polynomial(g.take(k as int), oracle) == Some(before));
                            assert(domain_value(multinomial_of(g[k as int].value), oracle) == Some(
                                base,
                            ));
                        }
                    }
                },
                None => {
                    proof {
                        assert forall|oracle: spec_fn(nat, int) -> Seq<nat>| #[trigger]
                            answers_dense(*trace_table, oracle) implies grouped_polynomial(
                            g,
                            oracle,
                        ).is_none() by {
                            assert(domain_value(multinomial_of(g[k as int].value), oracle) == Some(
                                base,
                            ));
                            lemma_grouped_polynomial_none(g, oracle, k as int);
                        }
                    }
                    return None;
                },
            }
            k += 1;
        }
        proof {
            assert(g.take(k as int) =~= g);
        }
        Some(sum)
    }
}

/// Lifting brings a constraint to the target degree: with its own
/// numerator and denominator, the expression that is multiplied by the
/// power of `X` has the target degree, and the one that is not has the
/// degree of the constraint.
pub proof fn lemma_lifted_degree(
    c: ConstraintView,
    first: nat,
    second: nat,
    trace_length: nat,
    target: int,
)
    requires
        0 <= c.degree(trace_length) <= target,
    ensures
        adjusted_term(second, c.base, (target - c.degree(trace_length)) as nat).degree(
            trace_length,
        ) + c.numerator.degree() - c.denominator.degree() == target,
        plain_term(first, c.base).degree(trace_length) + c.numerator.degree()
            - c.denominator.degree() == c.degree(trace_length),
{
    let e = (target - c.degree(trace_length)) as nat;
    let power = PolyExpr::Pow(Box::new(PolyExpr::X), e);
    assert(PolyExpr::X.degree() == 1);
    assert(power.degree() == e * 1);
    assert(TraceExpr::Poly(power).degree(trace_length) == e);
    assert(TraceExpr::Poly(PolyExpr::Constant(second)).degree(trace_length) == 0);
    assert(TraceExpr::Poly(PolyExpr::Constant(first)).degree(trace_length) == 0);
    assert(plain_term(second, c.base).degree(trace_length) == c.base.degree(trace_length));
    assert(plain_term(first, c.base).degree(trace_length) == c.base.degree(trace_length));
}

/// The target degree is never more than one below the largest degree, and
/// it is at least the largest degree unless that is a power of two.
pub proof fn lemma_target_degree(constraints: Seq<ConstraintView>, trace_length: nat)
    ensures
        target_degree(constraints, trace_length) >= max_degree(constraints, trace_length) - 1,
        target_degree(constraints, trace_length) >= 0,
{
    lemma_power_of_two_from(max_degree(constraints, trace_length) as nat, 1);
    lemma_max_degree(constraints, trace_length);
}

/// The largest degree is not negative, and no constraint has a larger one.
pub proof fn lemma_max_degree(constraints: Seq<ConstraintView>, trace_length: nat)
    ensures
        max_degree(constraints, trace_length) >= 0,
        forall|i: int|
            0 <= i < constraints.len() ==> (#[trigger] constraints[i]).degree(trace_length)
                <= max_degree(constraints, trace_length),
    decreases constraints.len(),
{
    if constraints.len() > 0 {
        lemma_max_degree(constraints.drop_last(), trace_length);
        assert forall|i: int| 0 <= i < constraints.len() implies (#[trigger] constraints[i]).degree(
            trace_length,
        ) <= max_degree(constraints, trace_length) by {
            if i < constraints.len() - 1 {
                assert(constraints.drop_last()[i] == constraints[i]);
            }
        }
    }
}

/// The largest degree among the constraints.
fn largest_degree(constraints: &[Constraint], trace_length: usize) -> (d: usize)
    requires
        trace_length >= 1,
        constraints_fit(constraints_view(constraints@), trace_length as nat),
    ensures
        d == max_degree(constraints_view(constraints@), trace_length as nat),
{
    let ghost cs = constraints_view(constraints@);
    let mut d: usize = 0;
    let mut i: usize = 0;
    proof {
        assert(cs.take(0) =~= Seq::<ConstraintView>::empty());
    }
    while i < constraints.len()
        invariant
            i <= constraints.len(),
            trace_length >= 1,
            cs == constraints_view(constraints@),
            constraints_fit(cs, trace_length as nat),
            d == max_degree(cs.take(i as int), trace_length as nat),
        decreases constraints.len() - i,
    {
        proof {
            assert(cs.take(i + 1).drop_last() =~= cs.take(i as int));
            assert(cs.take(i + 1).last() == cs[i as int]);
            assert(cs[i as int].fits(trace_length as nat));
        }
        let degree = constraints[i].degree(trace_length);
        if d < degree {
            d = degree;
        }
        i += 1;
    }
    proof {
        assert(cs.take(i as int) =~= cs);
    }
    d
}

/// Combines the constraints, of which no more than `cap` are incorporated.
///
/// Every constraint is lifted to the target degree, one less than the least
/// power of two that is at least the largest degree: constraint `i` adds
/// `coefficients[2 i] * base` and `coefficients[2 i + 1] * base * X^e` to the
/// bucket of its numerator and denominator, where `e` is what its degree
/// lacks. A constraint whose degree is above the target cannot be lifted.
/// Where constraints are left out, the result says so.
pub fn combine_constraints_with_cap(
    constraints: &[Constraint],
    coefficients: &[FieldElement],
    trace_length: usize,
    cap: usize,
) -> (r: Result<(GroupedConstraints, Option<Error>), Error>)
    requires
        trace_length >= 1,
        constraints_fit(constraints_view(constraints@), trace_length as nat),
        next_power_of_two(
            max_degree(constraints_view(constraints@), trace_length as nat) as nat,
        ) <= usize::MAX,
        coefficients@.len() >= 2 * incorporated(constraints_view(constraints@), cap as nat),
    ensures
        ({
            let cs = constraints_view(constraints@);
            let target = target_degree(cs, trace_length as nat);
            let count = incorporated(cs, cap as nat);
            if exceeds_target(cs, trace_length as nat, target, count) {
                r == Err::<(GroupedConstraints, Option<Error>), Error>(
                    Error::NegativeDegreeAdjustment,
                )
            } else {
                &&& r.is_ok()
                &&& r.unwrap().0@ == combined(
                    cs,
                    elements_view(coefficients@),
                    trace_length as nat,
                    target,
                    count,
                )
                &&& r.unwrap().1 == if cs.len() > cap {
                    Some(Error::ConstraintCap)
                } else {
                    None::<Error>
                }
            }
        }),
{
    let ghost cs = constraints_view(constraints@);
    let ghost cv = elements_view(coefficients@);
    let ghost length = trace_length as nat;
    let largest = largest_degree(constraints, trace_length);
    let target: usize = power_of_two_at_least(largest) - 1;
    let count: usize = if constraints.len() > cap {
        cap
    } else {
        constraints.len()
    };
    let available = coefficients.len();
    let mut result = GroupedConstraints::new();
    let mut i: usize = 0;
    while i < count
        invariant
            i <= count,
            available == coefficients@.len(),
            count <= constraints.len(),
            count == incorporated(cs, cap as nat),
            cs == constraints_view(constraints@),
            cv == elements_view(coefficients@),
            length == trace_length as nat,
            trace_length >= 1,
            constraints_fit(cs, length),
            coefficients@.len() >= 2 * count,
            target == target_degree(cs, length),
            forall|j: int| 0 <= j < i ==> (#[trigger] cs[j]).degree(length) <= target,
            result@ == combined(cs, cv, length, target as int, i as nat),
        decreases count - i,
    {
        let constraint = &constraints[i];
        proof {
            assert(constraint@ == cs[i as int]);
            assert(cs[i as int].fits(length));
        }
        let degree = constraint.degree(trace_length);
        if degree > target {
            return Err(Error::NegativeDegreeAdjustment);
        }
        let adjustment = Other::X.pow(target - degree);
        let plain = Expression::from_field(&coefficients[2 * i]).mul(constraint.base.duplicate());
        let adjusted = Expression::from_field(&coefficients[2 * i + 1]).mul(
            constraint.base.duplicate(),
        ).mul(Expression::from_other(adjustment));
        proof {
            assert(cv[2 * i] == coefficients@[2 * i]@);
            assert(cv[2 * i + 1] == coefficients@[2 * i + 1]@);
        }
        result.insert(
            (constraint.numerator.duplicate(), constraint.denominator.duplicate()),
            plain,
        );
        result.insert(
            (constraint.numerator.duplicate(), constraint.denominator.duplicate()),
            adjusted,
        );
        i += 1;
    }
    let warning = if constraints.len() > cap {
        Some(Error::ConstraintCap)
    } else {
        None
    };
    Ok((result, warning))
}

/// Combines the constraints, of which no more than [`CONSTRAINT_CAP`] are
/// incorporated.
pub fn combine_constraints(
    constraints: &[Constraint],
    coefficients: &[FieldElement],
    trace_length: usize,
) -> (r: Result<(GroupedConstraints, Option<Error>), Error>)
    requires
        trace_length >= 1,
        constraints_fit(constraints_view(constraints@), trace_length as nat),
        next_power_of_two(
            max_degree(constraints_view(constraints@), trace_length as nat) as nat,
        ) <= usize::MAX,
        coefficients@.len() >= 2 * incorporated(
            constraints_view(constraints@),
            CONSTRAINT_CAP as nat,
        ),
    ensures
        ({
            let cs = constraints_view(constraints@);
            let target = target_degree(cs, trace_length as nat);
            let count = incorporated(cs, CONSTRAINT_CAP as nat);
            if exceeds_target(cs, trace_length as nat, target, count) {
                r == Err::<(GroupedConstraints, Option<Error>), Error>(
                    Error::NegativeDegreeAdjustment,
                )
            } else {
                &&& r.is_ok()
                &&& r.unwrap().0@ == combined(
                    cs,
                    elements_view(coefficients@),
                    trace_length as nat,
                    target,
                    count,
                )
                &&& r.unwrap().1 == if cs.len() > CONSTRAINT_CAP {
                    Some(Error::ConstraintCap)
                } else {
                    None::<Error>
                }
            }
        }),
{
    combine_constraints_with_cap(constraints, coefficients, trace_length, CONSTRAINT_CAP)
}

} // verus!
