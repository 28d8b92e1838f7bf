//! Elements of the prime field and the arithmetic on them.
//!
//! A [`FieldElement`] holds the canonical residue as four 64-bit limbs. The
//! arithmetic itself is done by the `zkp-primefield` crate; what this module
//! proves is stated over the residues as natural numbers.

use crate::modular::{
    add_mod, div_mod, int_mod, inv_mod, is_inverse, lemma_inverse_unique, lemma_sub_zero, modulus,
    mul_mod, neg_mod, pow_mod, sub_mod,
};
use vstd::prelude::*;
use zkp_u256::U256;

verus! {

/// The most significant limb of the modulus; its other limbs are 0, 0 and 1.
pub const MODULUS_TOP: u64 = 0x0800_0000_0000_0011u64;

/// The number that four limbs stand for, least significant first.
pub open spec fn limbs_value(l0: u64, l1: u64, l2: u64, l3: u64) -> nat {
    (l0 as nat) + (l1 as nat) * 0x1_0000_0000_0000_0000nat + (l2 as nat)
        * 0x1_0000_0000_0000_0000_0000_0000_0000_0000nat + (l3 as nat)
        * 0x1_0000_0000_0000_0000_0000_0000_0000_0000_0000_0000_0000_0000nat
}

/// An element of the field, held as the limbs of its canonical residue.
#[derive(Clone, Copy, Debug, PartialEq, Eq, Structural, PartialOrd, Ord, Hash)]
pub struct FieldElement {
    l3: u64,
    l2: u64,
    l1: u64,
    l0: u64,
}

impl View for FieldElement {
    type V = nat;

    closed spec fn view(&self) -> nat {
        limbs_value(self.l0, self.l1, self.l2, self.l3)
    }
}

/// Calls `+` of `zkp_primefield::FieldElement`: the sum of two residues,
/// reduced by the modulus.
#[verifier::external_body]
fn outside_add(a: &FieldElement, b: &FieldElement) -> (r: FieldElement)
    ensures
        r@ == add_mod(a@, b@),
{
    let x = zkp_primefield::FieldElement::from(U256::from_limbs(a.l0, a.l1, a.l2, a.l3));
    let y = zkp_primefield::FieldElement::from(U256::from_limbs(b.l0, b.l1, b.l2, b.l3));
    let z = U256::from(x + y);
    FieldElement { l3: z.c3, l2: z.c2, l1: z.c1, l0: z.c0 }
}

/// Calls `-` of `zkp_primefield::FieldElement`: the difference of two
/// residues, brought back into the range of the modulus.
#[verifier::external_body]
fn outside_sub(a: &FieldElement, b: &FieldElement) -> (r: FieldElement)
    ensures
        r@ == sub_mod(a@, b@),
{
    let x = zkp_primefield::FieldElement::from(U256::from_limbs(a.l0, a.l1, a.l2, a.l3));
    let y = zkp_primefield::FieldElement::from(U256::from_limbs(b.l0, b.l1, b.l2, b.l3));
    let z = U256::from(x - y);
    FieldElement { l3: z.c3, l2: z.c2, l1: z.c1, l0: z.c0 }
}

/// Calls `*` of `zkp_primefield::FieldElement`: the product of two residues,
/// reduced by the modulus.
#[verifier::external_body]
fn outside_mul(a: &FieldElement, b: &FieldElement) -> (r: FieldElement)
    ensures
        r@ == mul_mod(a@, b@),
{
    let x = zkp_primefield::FieldElement::from(U256::from_limbs(a.l0, a.l1, a.l2, a.l3));
    let y = zkp_primefield::FieldElement::from(U256::from_limbs(b.l0, b.l1, b.l2, b.l3));
    let z = U256::from(x * y);
    FieldElement { l3: z.c3, l2: z.c2, l1: z.c1, l0: z.c0 }
}

/// Calls `FieldElement::inv` of `zkp-primefield`: zero has no inverse; of
/// any other residue the result times that residue is one.
#[verifier::external_body]
fn outside_inv(a: &FieldElement) -> (r: Option<FieldElement>)
    ensures
        a@ == 0 ==> r.is_none(),
        a@ != 0 ==> r.is_some() && mul_mod(a@, r.unwrap()@) == 1,
{
    let x = zkp_primefield::FieldElement::from(U256::from_limbs(a.l0, a.l1, a.l2, a.l3));
    match x.inv() {
        Some(y) => {
            let z = U256::from(y);
            Some(FieldElement { l3: z.c3, l2: z.c2, l1: z.c1, l0: z.c0 })
        },
        None => None,
    }
}

/// Calls `FieldElement::pow` of `zkp-primefield`: the residue multiplied by
/// itself `n` times, one for `n == 0`.
#[verifier::external_body]
fn outside_pow(a: &FieldElement, n: usize) -> (r: FieldElement)
    ensures
        r@ == pow_mod(a@, n as nat),
{
    let x = zkp_primefield::FieldElement::from(U256::from_limbs(a.l0, a.l1, a.l2, a.l3));
    let z = U256::from(x.pow(n));
    FieldElement { l3: z.c3, l2: z.c2, l1: z.c1, l0: z.c0 }
}

impl FieldElement {
    /// The limbs stand for a number below the modulus.
    #[verifier::type_invariant]
    pub open spec fn canonical(self) -> bool {
        self@ < modulus()
    }

    /// The additive identity.
    pub fn zero() -> (r: FieldElement)
        ensures
            r@ == 0,
    {
        proof {
            reveal(modulus);
        }
        FieldElement { l3: 0, l2: 0, l1: 0, l0: 0 }
    }

    /// The multiplicative identity.
    pub fn one() -> (r: FieldElement)
        ensures
            r@ == 1,
    {
        proof {
            reveal(modulus);
        }
        FieldElement { l3: 0, l2: 0, l1: 0, l0: 1 }
    }

    /// The additive inverse of one.
    pub fn negative_one() -> (r: FieldElement)
        ensures
            r@ == modulus() - 1,
    {
        proof {
            reveal(modulus);
        }
        FieldElement { l3: MODULUS_TOP, l2: 0, l1: 0, l0: 0 }
    }

    /// The element with the given residue.
    pub fn from_u64(n: u64) -> (r: FieldElement)
        ensures
            r@ == n,
    {
        proof {
            reveal(modulus);
        }
        FieldElement { l3: 0, l2: 0, l1: 0, l0: n }
    }

    /// The element that stands for a signed integer: `-n` is the additive
    /// inverse of `n`.
    pub fn from_i64(n: i64) -> (r: FieldElement)
        ensures
            r@ == int_mod(n as int),
    {
        proof {
            reveal(modulus);
        }
        if n >= 0 {
            FieldElement::from_u64(n as u64)
        } else {
            let magnitude: u64 = if n == i64::MIN {
                0x8000_0000_0000_0000u64
            } else {
                (-n) as u64
            };
            FieldElement::from_u64(magnitude).neg()
        }
    }

    /// The element with the given limbs, least significant first, if they
    /// are a canonical residue.
    pub fn from_limbs(limbs: [u64; 4]) -> (r: Option<FieldElement>)
        ensures
            match r {
                Some(e) => e@ == limbs_value(limbs[0], limbs[1], limbs[2], limbs[3]),
                None => limbs_value(limbs[0], limbs[1], limbs[2], limbs[3]) >= modulus(),
            },
    {
        let l0 = limbs[0];
        let l1 = limbs[1];
        let l2 = limbs[2];
        let l3 = limbs[3];
        proof {
            reveal(modulus);
        }
        if l3 < MODULUS_TOP || (l3 == MODULUS_TOP && l2 == 0 && l1 == 0 && l0 == 0) {
            Some(FieldElement { l3, l2, l1, l0 })
        } else {
            None
        }
    }

    /// The limbs of the residue, least significant first.
    pub fn to_limbs(&self) -> (r: [u64; 4])
        ensures
            limbs_value(r[0], r[1], r[2], r[3]) == self@,
    {
        [self.l0, self.l1, self.l2, self.l3]
    }

    /// Whether the element is zero.
    pub fn is_zero(&self) -> (r: bool)
        ensures
            r == (self@ == 0),
    {
        self.l3 == 0 && self.l2 == 0 && self.l1 == 0 && self.l0 == 0
    }

    /// Whether the element is one.
    pub fn is_one(&self) -> (r: bool)
        ensures
            r == (self@ == 1),
    {
        self.l3 == 0 && self.l2 == 0 && self.l1 == 0 && self.l0 == 1
    }

    /// Whether two elements are the same residue.
    pub fn equals(&self, other: &FieldElement) -> (r: bool)
        ensures
            r == (self@ == other@),
            r == (*self == *other),
    {
        proof {
            if self@ == other@ {
                lemma_view_injective(*self, *other);
            }
        }
        self.l3 == other.l3 && self.l2 == other.l2 && self.l1 == other.l1 && self.l0 == other.l0
    }

    /// Whether this residue is the smaller of the two.
    pub fn less_than(&self, other: &FieldElement) -> (r: bool)
        ensures
            r == (self@ < other@),
    {
        if self.l3 != other.l3 {
            self.l3 < other.l3
        } else if self.l2 != other.l2 {
            self.l2 < other.l2
        } else if self.l1 != other.l1 {
            self.l1 < other.l1
        } else {
            self.l0 < other.l0
        }
    }

    /// The sum.
    pub fn add(&self, other: &FieldElement) -> (r: FieldElement)
        ensures
            r@ == add_mod(self@, other@),
    {
        outside_add(self, other)
    }

    /// The difference.
    pub fn sub(&self, other: &FieldElement) -> (r: FieldElement)
        ensures
            r@ == sub_mod(self@, other@),
    {
        outside_sub(self, other)
    }

    /// The product.
    pub fn mul(&self, other: &FieldElement) -> (r: FieldElement)
        ensures
            r@ == mul_mod(self@, other@),
    {
        outside_mul(self, other)
    }

    /// The additive inverse.
    pub fn neg(&self) -> (r: FieldElement)
        ensures
            r@ == neg_mod(self@),
    {
        let zero = FieldElement::zero();
        let r = outside_sub(&zero, self);
        proof {
            lemma_sub_zero(self@);
        }
        r
    }

    /// The element added to itself.
    pub fn double(&self) -> (r: FieldElement)
        ensures
            r@ == add_mod(self@, self@),
    {
        outside_add(self, self)
    }

    /// The element multiplied by itself.
    pub fn square(&self) -> (r: FieldElement)
        ensures
            r@ == mul_mod(self@, self@),
    {
        outside_mul(self, self)
    }

    /// The element multiplied by itself `exponent` times; one for zero times.
    pub fn pow(&self, exponent: usize) -> (r: FieldElement)
        ensures
            r@ == pow_mod(self@, exponent as nat),
    {
        outside_pow(self, exponent)
    }

    /// The multiplicative inverse; zero has none.
    pub fn inv(&self) -> (r: Option<FieldElement>)
        ensures
            self@ == 0 <==> r.is_none(),
            r.is_some() ==> r.unwrap()@ == inv_mod(self@) && is_inverse(self@, inv_mod(self@)),
    {
        let r = outside_inv(self);
        proof {
            if let Some(v) = r {
                use_type_invariant(&v);
                lemma_inverse_unique(self@, v@, inv_mod(self@));
            }
        }
        r
    }

    /// The quotient; there is none by zero.
    pub fn div(&self, other: &FieldElement) -> (r: Option<FieldElement>)
        ensures
            other@ == 0 <==> r.is_none(),
            r.is_some() ==> r.unwrap()@ == div_mod(self@, other@) && is_inverse(
                other@,
                inv_mod(other@),
            ),
    {
        match other.inv() {
            Some(inverse) => Some(self.mul(&inverse)),
            None => None,
        }
    }
}

/// The value of two digits to a base determines both digits.
proof fn lemma_digits(base: int, x0: int, x1: int, y0: int, y1: int)
    requires
        base > 0,
        0 <= x0 < base,
        0 <= y0 < base,
        x0 + x1 * base == y0 + y1 * base,
    ensures
        x0 == y0,
        x1 == y1,
{
    if x1 != y1 {
        assert((x1 - y1) * base == y0 - x0) by (nonlinear_arith)
            requires
                x0 + x1 * base == y0 + y1 * base,
        ;
        if x1 > y1 {
            assert((x1 - y1) * base >= base) by (nonlinear_arith)
                requires
                    x1 - y1 >= 1,
                    base > 0,
            ;
        } else {
            assert((x1 - y1) * base <= -base) by (nonlinear_arith)
                requires
                    x1 - y1 <= -1,
                    base > 0,
            ;
        }
    }
}

/// Limbs are the digits of their value: two elements with one residue have
/// the same limbs.
pub proof fn lemma_view_injective(a: FieldElement, b: FieldElement)
    requires
        a@ == b@,
    ensures
        a == b,
{
    let base = 0x1_0000_0000_0000_0000int;
    let a_high = a.l1 + (a.l2 + a.l3 * base) * base;
    let b_high = b.l1 + (b.l2 + b.l3 * base) * base;
    assert(a@ == a.l0 + a_high * base) by (nonlinear_arith)
        requires
            a@ == limbs_value(a.l0, a.l1, a.l2, a.l3),
            base == 0x1_0000_0000_0000_0000int,
            a_high == a.l1 + (a.l2 + a.l3 * base) * base,
    ;
    assert(b@ == b.l0 + b_high * base) by (nonlinear_arith)
        requires
            b@ == limbs_value(b.l0, b.l1, b.l2, b.l3),
            base == 0x1_0000_0000_0000_0000int,
            b_high == b.l1 + (b.l2 + b.l3 * base) * base,
    ;
    lemma_digits(base, a.l0 as int, a_high, b.l0 as int, b_high);
    lemma_digits(
        base,
        a.l1 as int,
        a.l2 + a.l3 * base,
        b.l1 as int,
        b.l2 + b.l3 * base,
    );
    lemma_digits(base, a.l2 as int, a.l3 as int, b.l2 as int, b.l3 as int);
}

} // verus!
