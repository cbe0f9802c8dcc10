use nabla_game::math::fraction::Fraction;

#[test]
fn test_simplify_normalizes_zero_numerator_denominator_to_one() {
    let non_canonical_zero = Fraction { n: 0, d: 2 };
    assert_eq!(non_canonical_zero.simplify(), Fraction { n: 0, d: 1 });
}

#[test]
fn test_multiplying_by_a_fraction_never_produces_a_non_canonical_zero() {
    let zero = Fraction::from_int(0);
    let half = Fraction::from_pair((1, 2));
    assert_eq!(zero.mul(half), Fraction { n: 0, d: 1 });
    assert_eq!(half.mul(zero), Fraction { n: 0, d: 1 });
}

#[test]
fn test_simplify_reduces_by_the_gcd_and_moves_the_sign_up() {
    assert_eq!(Fraction { n: 6, d: 8 }.simplify(), Fraction { n: 3, d: 4 });
    assert_eq!(Fraction { n: 6, d: -8 }.simplify(), Fraction { n: -3, d: 4 });
    assert_eq!(Fraction { n: -6, d: -8 }.simplify(), Fraction { n: 3, d: 4 });
    assert_eq!(Fraction { n: 7, d: 1 }.simplify(), Fraction { n: 7, d: 1 });
}

#[test]
fn test_mul_multiplies_and_simplifies() {
    let a = Fraction { n: 2, d: 3 };
    let b = Fraction { n: 3, d: 4 };
    assert_eq!(a.mul(b), Fraction { n: 1, d: 2 });
    assert_eq!(Fraction::from_pair((-4, 6)), Fraction { n: -2, d: 3 });
}
