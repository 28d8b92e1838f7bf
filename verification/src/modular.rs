//! Arithmetic on residues of the field's modulus, as natural numbers, and
//! the laws of it that the rest of the library is proved from.

use vstd::arithmetic::div_mod::*;
use vstd::arithmetic::mul::*;
use vstd::prelude::*;

verus! {

/// The field's modulus, `2^251 + 17 * 2^192 + 1`.
#[verifier::opaque]
pub open spec fn modulus() -> nat {
    0x0800000000000011000000000000000000000000000000000000000000000001nat
}

/// The sum of two residues.
pub open spec fn add_mod(a: nat, b: nat) -> nat {
    (a + b) % modulus()
}

/// The additive inverse of a residue.
pub open spec fn neg_mod(a: nat) -> nat {
    ((modulus() - a % modulus()) % (modulus() as int)) as nat
}

/// The difference of two residues.
pub open spec fn sub_mod(a: nat, b: nat) -> nat {
    add_mod(a, neg_mod(b))
}

/// The product of two residues.
pub open spec fn mul_mod(a: nat, b: nat) -> nat {
    (a * b) % modulus()
}

/// The `n`-th power of a residue; one for `n == 0`.
pub open spec fn pow_mod(a: nat, n: nat) -> nat
    decreases n,
{
    if n == 0 {
        1
    } else {
        mul_mod(a, pow_mod(a, (n - 1) as nat))
    }
}

/// Whether `r` is the multiplicative inverse of `a`.
pub open spec fn is_inverse(a: nat, r: nat) -> bool {
    r < modulus() && mul_mod(a, r) == 1
}

/// The multiplicative inverse of `a`, where it has one.
pub open spec fn inv_mod(a: nat) -> nat {
    choose|r: nat| is_inverse(a, r)
}

/// The quotient of two residues: the product with the inverse.
pub open spec fn div_mod(a: nat, b: nat) -> nat {
    mul_mod(a, inv_mod(b))
}

/// The residue that stands for a signed integer.
pub open spec fn int_mod(n: int) -> nat {
    if n >= 0 {
        (n as nat) % modulus()
    } else {
        neg_mod((-n) as nat)
    }
}

/// The modulus is larger than two.
pub proof fn lemma_modulus_positive()
    ensures
        modulus() > 2,
{
    reveal(modulus);
}

/// Every result of the arithmetic is a residue.
pub proof fn lemma_reduced(a: nat, b: nat)
    ensures
        add_mod(a, b) < modulus(),
        sub_mod(a, b) < modulus(),
        mul_mod(a, b) < modulus(),
        neg_mod(a) < modulus(),
        a % modulus() < modulus(),
{
    lemma_modulus_positive();
    let m = modulus() as int;
    lemma_mod_bound((a + b) as int, m);
    lemma_mod_bound((a + neg_mod(b)) as int, m);
    lemma_mod_bound((a * b) as int, m);
    lemma_mod_bound(a as int, m);
    lemma_mod_bound(m - (a % modulus()) as int, m);
}

/// A number below the modulus is its own residue.
pub proof fn lemma_small(a: nat)
    requires
        a < modulus(),
    ensures
        a % modulus() == a,
{
    lemma_small_mod(a, modulus());
}

/// Addition is commutative.
pub proof fn lemma_add_mod_comm(a: nat, b: nat)
    ensures
        add_mod(a, b) == add_mod(b, a),
{
}

/// Reducing an operand first changes neither a sum nor a product.
pub proof fn lemma_mod_absorb(a: nat, b: nat)
    ensures
        add_mod(a % modulus(), b) == add_mod(a, b),
        add_mod(a, b % modulus()) == add_mod(a, b),
        mul_mod(a % modulus(), b) == mul_mod(a, b),
        mul_mod(a, b % modulus()) == mul_mod(a, b),
{
    lemma_modulus_positive();
    let m = modulus() as int;
    lemma_add_mod_noop(a as int, b as int, m);
    lemma_add_mod_noop((a % modulus()) as int, b as int, m);
    lemma_add_mod_noop(a as int, (b % modulus()) as int, m);
    lemma_mod_twice(a as int, m);
    lemma_mod_twice(b as int, m);
    lemma_mul_mod_noop_left(a as int, b as int, m);
    lemma_mul_mod_noop_right(a as int, b as int, m);
}

/// Addition is associative.
pub proof fn lemma_add_mod_assoc(a: nat, b: nat, c: nat)
    ensures
        add_mod(add_mod(a, b), c) == add_mod(a, add_mod(b, c)),
{
    lemma_mod_absorb(a + b, c);
    lemma_mod_absorb(a, b + c);
    assert((a + b) + c == a + (b + c));
}

/// Zero is neutral for addition.
pub proof fn lemma_add_mod_zero(a: nat)
    ensures
        add_mod(a, 0) == a % modulus(),
        add_mod(0, a) == a % modulus(),
{
}

/// Multiplication is commutative.
pub proof fn lemma_mul_mod_comm(a: nat, b: nat)
    ensures
        mul_mod(a, b) == mul_mod(b, a),
{
    lemma_mul_is_commutative(a as int, b as int);
}

/// One is neutral for multiplication.
pub proof fn lemma_mul_mod_one(a: nat)
    ensures
        mul_mod(1, a) == a % modulus(),
        mul_mod(a, 1) == a % modulus(),
{
    lemma_mul_basics(a as int);
}

/// A product with zero is zero.
pub proof fn lemma_mul_mod_zero(a: nat)
    ensures
        mul_mod(a, 0) == 0,
        mul_mod(0, a) == 0,
{
    lemma_modulus_positive();
    lemma_mul_basics(a as int);
    lemma_small_mod(0, modulus());
}

/// Multiplication is associative.
pub proof fn lemma_mul_mod_assoc(a: nat, b: nat, c: nat)
    ensures
        mul_mod(mul_mod(a, b), c) == mul_mod(a, mul_mod(b, c)),
{
    lemma_mod_absorb(a * b, c);
    lemma_mod_absorb(a, b * c);
    lemma_mul_is_associative(a as int, b as int, c as int);
}

/// Multiplication distributes over addition.
pub proof fn lemma_mul_mod_distributes(a: nat, b: nat, c: nat)
    ensures
        mul_mod(a, add_mod(b, c)) == add_mod(mul_mod(a, b), mul_mod(a, c)),
        mul_mod(add_mod(b, c), a) == add_mod(mul_mod(b, a), mul_mod(c, a)),
{
    lemma_mod_absorb(a, b + c);
    lemma_mul_is_distributive_add(a as int, b as int, c as int);
    lemma_mod_absorb(a * b, a * c);
    lemma_mod_absorb(a * b, mul_mod(a, c));
    lemma_mul_mod_comm(a, add_mod(b, c));
    lemma_mul_mod_comm(a, b);
    lemma_mul_mod_comm(a, c);
}

/// A residue and its negation add up to zero.
pub proof fn lemma_neg_mod_cancels(a: nat)
    ensures
        add_mod(a, neg_mod(a)) == 0,
        add_mod(neg_mod(a), a) == 0,
        sub_mod(a, a) == 0,
{
    lemma_modulus_positive();
    let m = modulus();
    let r = a % m;
    lemma_mod_bound(a as int, m as int);
    lemma_mod_absorb(a, neg_mod(a));
    lemma_mod_self_0(m as int);
    if r == 0 {
        lemma_small_mod(0, m);
    } else {
        lemma_small_mod((m - r) as nat, m);
    }
}

/// Zero less a residue is its negation.
pub proof fn lemma_sub_zero(a: nat)
    ensures
        sub_mod(0, a) == neg_mod(a),
{
    lemma_reduced(a, a);
    lemma_small(neg_mod(a));
}

/// Two residues that cancel the same residue are equal.
pub proof fn lemma_sum_cancels(a: nat, b: nat, c: nat)
    requires
        b < modulus(),
        c < modulus(),
        add_mod(a, b) == add_mod(a, c),
    ensures
        b == c,
{
    // b == (neg(a) + a) + b == neg(a) + (a + b) == neg(a) + (a + c) == c
    lemma_neg_mod_cancels(a);
    lemma_add_mod_assoc(neg_mod(a), a, b);
    lemma_add_mod_assoc(neg_mod(a), a, c);
    lemma_add_mod_zero(b);
    lemma_add_mod_zero(c);
    lemma_small(b);
    lemma_small(c);
}

/// Negating is multiplying by minus one.
pub proof fn lemma_neg_mod_is_mul(a: nat)
    ensures
        neg_mod(a) == mul_mod((modulus() - 1) as nat, a),
{
    lemma_modulus_positive();
    let m = modulus();
    let minus_one = (m - 1) as nat;
    let r = a % m;
    lemma_reduced(a, a);
    lemma_reduced(minus_one, a);
    // (m - 1) * a + a == 0
    lemma_mul_mod_distributes(a, minus_one, 1);
    lemma_mod_self_0(m as int);
    assert(add_mod(minus_one, 1) == 0);
    lemma_mul_mod_zero(a);
    lemma_mul_mod_one(a);
    lemma_mod_absorb(mul_mod(minus_one, a), a);
    assert(add_mod(mul_mod(minus_one, a), r) == 0);
    lemma_add_mod_comm(mul_mod(minus_one, a), r);
    lemma_neg_mod_cancels(a);
    lemma_mod_absorb(a, neg_mod(a));
    lemma_sum_cancels(r, neg_mod(a), mul_mod(minus_one, a));
}

/// Every power is a residue.
pub proof fn lemma_pow_mod_reduced(a: nat, n: nat)
    ensures
        pow_mod(a, n) < modulus(),
    decreases n,
{
    lemma_modulus_positive();
    if n > 0 {
        lemma_reduced(a, pow_mod(a, (n - 1) as nat));
    }
}

/// Exponents add where powers are multiplied.
pub proof fn lemma_pow_mod_adds(a: nat, m: nat, n: nat)
    ensures
        pow_mod(a, m + n) == mul_mod(pow_mod(a, m), pow_mod(a, n)),
    decreases m,
{
    if m == 0 {
        lemma_pow_mod_reduced(a, n);
        lemma_mul_mod_one(pow_mod(a, n));
        lemma_small(pow_mod(a, n));
    } else {
        lemma_pow_mod_adds(a, (m - 1) as nat, n);
        assert(pow_mod(a, m + n) == mul_mod(a, pow_mod(a, (m + n - 1) as nat)));
        assert((m + n - 1) as nat == (m - 1) as nat + n);
        lemma_mul_mod_assoc(a, pow_mod(a, (m - 1) as nat), pow_mod(a, n));
    }
}

/// Four summands may be paired either way.
pub proof fn lemma_add_mod_swap(p: nat, q: nat, r: nat, s: nat)
    ensures
        add_mod(add_mod(p, q), add_mod(r, s)) == add_mod(add_mod(p, r), add_mod(q, s)),
{
    lemma_mod_absorb(p + q, add_mod(r, s));
    lemma_mod_absorb(p + q, r + s);
    lemma_mod_absorb(p + r, add_mod(q, s));
    lemma_mod_absorb(p + r, q + s);
    assert((p + q) + (r + s) == (p + r) + (q + s));
}

/// Four factors may be paired either way.
pub proof fn lemma_mul_mod_swap(p: nat, q: nat, r: nat, s: nat)
    ensures
        mul_mod(mul_mod(p, q), mul_mod(r, s)) == mul_mod(mul_mod(p, r), mul_mod(q, s)),
{
    lemma_mul_mod_assoc(p, q, mul_mod(r, s));
    lemma_mul_mod_assoc(q, r, s);
    lemma_mul_mod_comm(q, r);
    lemma_mul_mod_assoc(r, q, s);
    lemma_mul_mod_assoc(p, r, mul_mod(q, s));
}

/// Adding a residue and taking it away again changes nothing.
pub proof fn lemma_add_neg_cancel(x: nat, a: nat)
    ensures
        add_mod(add_mod(x, a), neg_mod(a)) == x % modulus(),
        add_mod(add_mod(x, neg_mod(a)), a) == x % modulus(),
{
    lemma_add_mod_assoc(x, a, neg_mod(a));
    lemma_add_mod_assoc(x, neg_mod(a), a);
    lemma_neg_mod_cancels(a);
    lemma_add_mod_zero(x);
}

/// A difference times a residue is the difference of the products.
pub proof fn lemma_mul_mod_sub(a: nat, b: nat, y: nat)
    ensures
        mul_mod(sub_mod(a, b), y) == sub_mod(mul_mod(a, y), mul_mod(b, y)),
{
    let minus_one = (modulus() - 1) as nat;
    lemma_mul_mod_distributes(y, a, neg_mod(b));
    lemma_neg_mod_is_mul(b);
    lemma_neg_mod_is_mul(mul_mod(b, y));
    lemma_mul_mod_assoc(minus_one, b, y);
}

/// A residue has at most one inverse.
pub proof fn lemma_inverse_unique(a: nat, r: nat, s: nat)
    requires
        is_inverse(a, r),
    ensures
        is_inverse(a, inv_mod(a)),
        is_inverse(a, s) ==> r == s,
{
    if is_inverse(a, s) {
        // r == r (a s) == (r a) s == s
        lemma_mul_mod_assoc(r, a, s);
        lemma_mul_mod_comm(r, a);
        lemma_mul_mod_one(s);
        lemma_mul_mod_one(r);
        lemma_small(r);
        lemma_small(s);
    }
}

} // verus!
