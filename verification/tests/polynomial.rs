use finite_algebra::modulo_ints::IMod;
use finite_algebra::polynomial::Polynomial;
use finite_algebra::{AlgebraError, Indeterminate, X, Y};

#[test]
fn test_polynomial_construction() {
    // Create polynomial 3x^2 + 2x + 1 over IMod<5>
    type F5 = IMod<5>;
    let p: Polynomial<F5, X> = Polynomial::new(vec![
        (0, F5::new(1)),
        (1, F5::new(2)),
        (2, F5::new(3)),
    ]);

    assert_eq!(p.deg(), Some(2));
    assert_eq!(p.leading(), Some(&F5::new(3)));
}

#[test]
fn test_polynomial_addition() {
    type F7 = IMod<7>;
    // p1 = 2x^2 + 3x + 1
    let p1: Polynomial<F7, X> = Polynomial::new(vec![
        (0, F7::new(1)),
        (1, F7::new(3)),
        (2, F7::new(2)),
    ]);

    // p2 = x^2 + 4x + 2
    let p2: Polynomial<F7, X> = Polynomial::new(vec![
        (0, F7::new(2)),
        (1, F7::new(4)),
        (2, F7::new(1)),
    ]);

    // p1 + p2 = 3x^2 + 0x + 3 = 3x^2 + 3
    let result = p1.add(&p2);
    assert_eq!(result.deg(), Some(2));
    // Coefficient of x^2 should be 2 + 1 = 3
    // Coefficient of x^1 should be 3 + 4 = 0 (mod 7)
    // Coefficient of x^0 should be 1 + 2 = 3
}

#[test]
fn test_polynomial_multiplication_by_scalar() {
    type F5 = IMod<5>;
    // p = 2x + 3
    let p: Polynomial<F5, X> = Polynomial::new(vec![(0, F5::new(3)), (1, F5::new(2))]);

    // Multiply by 2: should get 4x + 1 (since 2*3 = 6 = 1 mod 5)
    let result = p.mul_scalar(&F5::new(2));
    assert_eq!(result.deg(), Some(1));
}

#[test]
fn test_zero_and_one() {
    type F3 = IMod<3>;
    let zero: Polynomial<F3, Y> = Polynomial::zero();
    let one: Polynomial<F3, Y> = Polynomial::one();

    assert_eq!(zero.deg(), None); // Zero polynomial has no degree
    assert_eq!(one.deg(), Some(0)); // One polynomial has degree 0
    assert_eq!(one.leading(), Some(&F3::new(1)));
}

#[test]
fn test_indeterminate_power() {
    type F7 = IMod<7>;
    let x_cubed: Polynomial<F7, X> = Polynomial::indeterminant_power(3);

    assert_eq!(x_cubed.deg(), Some(3));
    assert_eq!(x_cubed.leading(), Some(&F7::new(1)));
}

#[test]
fn test_polynomial_negation() {
    type F5 = IMod<5>;
    // p = 2x + 3
    let p: Polynomial<F5, X> = Polynomial::new(vec![(0, F5::new(3)), (1, F5::new(2))]);

    let neg_p = p.neg();
    // In F5: -2 = 3, -3 = 2
    assert_eq!(neg_p.deg(), Some(1));
}

#[test]
fn test_polynomial_division_simple() {
    type F7 = IMod<7>;
    // Test dividing x^2 by x
    // Should get quotient = x, remainder = 0
    let dividend: Polynomial<F7, X> = Polynomial::indeterminant_power(2); // x^2
    let divisor: Polynomial<F7, X> = Polynomial::indeterminant_power(1); // x

    let Ok(quotient) = dividend.div(&divisor) else {
        panic!("division failed");
    };
    let Ok(remainder) = dividend.rem(&divisor) else {
        panic!("remainder failed");
    };

    assert_eq!(quotient.deg(), Some(1)); // Should be x
    assert_eq!(remainder.deg(), None); // Should be 0

    // Verify: dividend = quotient * divisor + remainder
    let reconstructed = quotient.mul(&divisor).add(&remainder);
    assert!(dividend == reconstructed);
}

#[test]
fn test_polynomial_division_with_remainder() {
    type F5 = IMod<5>;
    // Test dividing 2x^2 + 3x + 1 by x + 1
    let dividend: Polynomial<F5, X> = Polynomial::new(vec![
        (0, F5::new(1)), // constant term
        (1, F5::new(3)), // x term
        (2, F5::new(2)), // x^2 term
    ]);

    let divisor: Polynomial<F5, X> = Polynomial::new(vec![
        (0, F5::new(1)), // constant term: 1
        (1, F5::new(1)), // x term: 1  (so this is x + 1)
    ]);

    let Ok(quotient) = dividend.div(&divisor) else {
        panic!("division failed");
    };
    let Ok(remainder) = dividend.rem(&divisor) else {
        panic!("remainder failed");
    };

    // Quotient should have degree 1, remainder should have degree 0
    assert_eq!(quotient.deg(), Some(1));
    assert!(remainder.deg().unwrap_or(0) < divisor.deg().unwrap());

    // Verify: dividend = quotient * divisor + remainder
    let reconstructed = quotient.mul(&divisor).add(&remainder);
    assert!(dividend == reconstructed);
}

#[test]
fn test_polynomial_division_exact() {
    type F7 = IMod<7>;
    // Test dividing x^3 - 1 by x - 1
    // This should divide exactly: (x - 1)(x^2 + x + 1) = x^3 - 1
    let dividend: Polynomial<F7, X> = Polynomial::new(vec![
        (0, F7::new(6)), // -1 = 6 mod 7
        (3, F7::new(1)), // x^3
    ]);

    let divisor: Polynomial<F7, X> = Polynomial::new(vec![
        (0, F7::new(6)), // -1 = 6 mod 7
        (1, F7::new(1)), // x
    ]);

    let Ok(quotient) = dividend.div(&divisor) else {
        panic!("division failed");
    };
    let Ok(remainder) = dividend.rem(&divisor) else {
        panic!("remainder failed");
    };

    // Should divide exactly, so remainder = 0
    assert_eq!(remainder.deg(), None);
    assert_eq!(quotient.deg(), Some(2)); // x^2 + x + 1

    // Verify: dividend = quotient * divisor
    let reconstructed = quotient.mul(&divisor);
    assert!(dividend == reconstructed);
}

#[test]
fn test_polynomial_scalar_division() {
    type F5 = IMod<5>;
    // Test dividing 2x^2 + 4x + 2 by 2
    // Should get x^2 + 2x + 1
    let p: Polynomial<F5, X> = Polynomial::new(vec![
        (0, F5::new(2)),
        (1, F5::new(4)),
        (2, F5::new(2)),
    ]);

    let Ok(result) = p.div_scalar(&F5::new(2)) else {
        panic!("scalar division failed");
    };

    assert_eq!(result.deg(), Some(2));
    // In F5: 2/2 = 1, 4/2 = 2, 2/2 = 1
}

#[test]
fn test_division_by_zero_polynomial_fails() {
    type F5 = IMod<5>;
    let dividend: Polynomial<F5, X> = Polynomial::one();
    let zero_divisor: Polynomial<F5, X> = Polynomial::zero();

    assert!(matches!(
        dividend.div(&zero_divisor),
        Err(AlgebraError::DivisionByZeroPolynomial)
    ));
    assert!(matches!(
        dividend.rem(&zero_divisor),
        Err(AlgebraError::DivisionByZeroPolynomial)
    ));
    // every dividend fails the same way, the zero polynomial included
    let zero_dividend: Polynomial<F5, X> = Polynomial::zero();
    assert!(matches!(
        zero_dividend.div(&zero_divisor),
        Err(AlgebraError::DivisionByZeroPolynomial)
    ));
}

#[test]
fn test_polynomial_construction_prunes_zeros() {
    type F5 = IMod<5>;
    // an explicit zero coefficient at x^3 must not affect the degree
    let p: Polynomial<F5, X> = Polynomial::new(vec![(0, F5::new(1)), (3, F5::new(0))]);
    assert_eq!(p.deg(), Some(0));

    let all_zero: Polynomial<F5, X> = Polynomial::new(vec![(2, F5::new(0)), (5, F5::new(5))]);
    assert_eq!(all_zero.deg(), None);
}

#[test]
fn test_polynomial_addition_prunes_cancellation() {
    type F5 = IMod<5>;
    // 2x + 3x = 5x = 0 mod 5: the sum collapses to the zero polynomial
    let p1: Polynomial<F5, X> = Polynomial::new(vec![(1, F5::new(2))]);
    let p2: Polynomial<F5, X> = Polynomial::new(vec![(1, F5::new(3))]);
    assert_eq!(p1.add(&p2).deg(), None);

    // a polynomial plus its negation is zero
    let p3: Polynomial<F5, X> = Polynomial::new(vec![(0, F5::new(4)), (2, F5::new(1))]);
    assert_eq!(p3.add(&p3.neg()).deg(), None);
}

#[test]
fn test_polynomial_multiplication() {
    type F7 = IMod<7>;
    // (x + 1) * (x + 6) = x^2 + 7x + 6 = x^2 + 6 mod 7
    let p1: Polynomial<F7, X> = Polynomial::new(vec![(0, F7::new(1)), (1, F7::new(1))]);
    let p2: Polynomial<F7, X> = Polynomial::new(vec![(0, F7::new(6)), (1, F7::new(1))]);
    let product = p1.mul(&p2);
    let expected: Polynomial<F7, X> = Polynomial::new(vec![(0, F7::new(6)), (2, F7::new(1))]);
    assert!(product == expected);
}

#[test]
fn test_polynomial_mul_by_zero() {
    type F7 = IMod<7>;
    let p: Polynomial<F7, X> = Polynomial::new(vec![(0, F7::new(2)), (4, F7::new(3))]);
    let zero: Polynomial<F7, X> = Polynomial::zero();
    assert_eq!(p.mul(&zero).deg(), None);
    assert_eq!(zero.mul(&p).deg(), None);
}

#[test]
fn test_polynomial_scalar_division_by_non_unit_fails() {
    type F6 = IMod<6>;
    let p: Polynomial<F6, X> = Polynomial::new(vec![(0, F6::new(4))]);
    assert!(matches!(
        p.div_scalar(&F6::new(2)),
        Err(AlgebraError::NonInvertibleElement)
    ));
}

#[test]
fn test_polynomial_assign_operations() {
    type F5 = IMod<5>;
    let mut p: Polynomial<F5, X> = Polynomial::new(vec![(0, F5::new(1)), (1, F5::new(2))]);
    let q: Polynomial<F5, X> = Polynomial::new(vec![(1, F5::new(3))]);

    p.add_assign(&q);
    let expected: Polynomial<F5, X> = Polynomial::new(vec![(0, F5::new(1))]);
    assert!(p == expected);

    p.sub_assign(&q);
    let expected2: Polynomial<F5, X> = Polynomial::new(vec![(0, F5::new(1)), (1, F5::new(2))]);
    assert!(p == expected2);

    p.mul_assign(&q);
    let expected3: Polynomial<F5, X> = Polynomial::new(vec![(1, F5::new(3)), (2, F5::new(1))]);
    assert!(p == expected3);
}

#[test]
fn test_indeterminate_name() {
    let v = Indeterminate::new('X');
    let w = Indeterminate::new('X');
    assert!(v == w);
    let u = Indeterminate::new('Y');
    assert!(v != u);
}

#[test]
fn test_polynomial_over_trivial_field() {
    // modulo 1 every coefficient is zero, so even `one` is the zero polynomial
    type F1 = IMod<1>;
    let one: Polynomial<F1, X> = Polynomial::one();
    assert_eq!(one.deg(), None);
}

#[test]
fn test_polynomial_ring_laws_concrete() {
    type F7 = IMod<7>;
    let p: Polynomial<F7, X> = Polynomial::new(vec![(0, F7::new(2)), (1, F7::new(5))]);
    let q: Polynomial<F7, X> = Polynomial::new(vec![(1, F7::new(3)), (3, F7::new(4))]);
    let r: Polynomial<F7, X> = Polynomial::new(vec![(0, F7::new(6)), (2, F7::new(1))]);

    // addition commutes and associates
    assert!(p.add(&q) == q.add(&p));
    assert!(p.add(&q).add(&r) == p.add(&q.add(&r)));

    // multiplication commutes, associates, and distributes over addition
    assert!(p.mul(&q) == q.mul(&p));
    assert!(p.mul(&q).mul(&r) == p.mul(&q.mul(&r)));
    assert!(p.mul(&q.add(&r)) == p.mul(&q).add(&p.mul(&r)));
}
