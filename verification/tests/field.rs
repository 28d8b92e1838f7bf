use openstark::field::FieldElement;

fn f(n: u64) -> FieldElement {
    FieldElement::from_u64(n)
}

const TOP: u64 = 0x0800_0000_0000_0011;

#[test]
fn constants_have_their_limbs() {
    assert_eq!(FieldElement::zero().to_limbs(), [0, 0, 0, 0]);
    assert_eq!(FieldElement::one().to_limbs(), [1, 0, 0, 0]);
    assert_eq!(FieldElement::negative_one().to_limbs(), [0, 0, 0, TOP]);
    assert!(FieldElement::zero().is_zero());
    assert!(FieldElement::one().is_one());
    assert!(!FieldElement::one().is_zero());
}

#[test]
fn limbs_at_or_above_the_modulus_are_refused() {
    assert!(FieldElement::from_limbs([0, 0, 0, TOP]).is_some());
    assert!(FieldElement::from_limbs([1, 0, 0, TOP]).is_none());
    assert!(FieldElement::from_limbs([0, 1, 0, TOP]).is_none());
    assert!(FieldElement::from_limbs([0, 0, 0, TOP + 1]).is_none());
    assert!(FieldElement::from_limbs([u64::MAX, u64::MAX, u64::MAX, TOP - 1]).is_some());
    assert_eq!(FieldElement::from_limbs([7, 0, 0, 0]), Some(f(7)));
}

#[test]
fn small_sums_and_products() {
    assert_eq!(f(3).add(&f(4)), f(7));
    assert_eq!(f(6).mul(&f(7)), f(42));
    assert_eq!(f(9).sub(&f(4)), f(5));
    assert_eq!(f(21).double(), f(42));
    assert_eq!(f(12).square(), f(144));
    assert_eq!(f(3).pow(5), f(243));
    assert_eq!(f(3).pow(0), f(1));
    assert_eq!(f(0).pow(0), f(1));
}

#[test]
fn arithmetic_wraps_at_the_modulus() {
    let minus_one = FieldElement::negative_one();
    assert_eq!(minus_one.add(&f(1)), f(0));
    assert_eq!(minus_one.add(&f(5)), f(4));
    assert_eq!(f(0).sub(&f(1)), minus_one);
    assert_eq!(minus_one.mul(&minus_one), f(1));
    assert_eq!(f(5).sub(&f(7)), FieldElement::from_i64(-2));
    assert_eq!(f(1).neg(), minus_one);
    assert_eq!(f(0).neg(), f(0));
}

#[test]
fn large_sum_matches_known_value() {
    let a = FieldElement::from_limbs([
        0x0d38_6f43_9639_2852,
        0x9714_c0e3_866f_f00e,
        0x2e17_f607_3bcc_10bb,
        0x06ea_be18_4aa9_caca,
    ])
    .unwrap();
    let b = FieldElement::from_limbs([
        0xac68_9763_aade_a7e8,
        0x5867_94f9_bb0a_dd62,
        0x14ef_c990_70de_3f70,
        0x0313_000a_764a_9a55,
    ])
    .unwrap();
    let c = FieldElement::from_limbs([
        0xb9a1_06a7_4117_d039,
        0xef7c_55dd_417a_cd70,
        0x4307_bf97_acaa_502b,
        0x01fd_be22_c0f4_650e,
    ])
    .unwrap();
    assert_eq!(a.add(&b), c);
    assert_eq!(c.sub(&b), a);
}

#[test]
fn signed_integers_are_residues() {
    assert_eq!(FieldElement::from_i64(0), f(0));
    assert_eq!(FieldElement::from_i64(17), f(17));
    assert_eq!(FieldElement::from_i64(-1), FieldElement::negative_one());
    assert_eq!(FieldElement::from_i64(-5).add(&f(5)), f(0));
    assert_eq!(
        FieldElement::from_i64(i64::MIN).add(&f(1u64 << 63)),
        f(0)
    );
}

#[test]
fn inverse_and_quotient() {
    assert_eq!(f(0).inv(), None);
    assert_eq!(f(1).inv(), Some(f(1)));
    let half = f(2).inv().unwrap();
    assert_eq!(half.mul(&f(2)), f(1));
    assert_eq!(half.add(&half), f(1));
    assert_eq!(f(10).div(&f(5)), Some(f(2)));
    assert_eq!(f(10).div(&f(0)), None);
    assert_eq!(f(7).div(&f(3)).unwrap().mul(&f(3)), f(7));
    let minus_one = FieldElement::negative_one();
    assert_eq!(minus_one.inv(), Some(minus_one));
}

#[test]
fn order_follows_the_residue() {
    assert!(f(3).less_than(&f(4)));
    assert!(!f(4).less_than(&f(3)));
    assert!(!f(4).less_than(&f(4)));
    assert!(f(u64::MAX).less_than(&FieldElement::negative_one()));
    assert!(f(5).equals(&f(5)));
    assert!(!f(5).equals(&f(6)));
    assert!(f(3) < f(4));
    assert!(FieldElement::from_limbs([0, 1, 0, 0]).unwrap() > f(u64::MAX));
}
