use finite_algebra::tools::{extended_gcd, mod_inverse, mod_pow};

#[test]
fn test_extended_gcd() {
    // Test basic cases
    let (gcd, x, y) = extended_gcd(10, 6);
    assert_eq!(gcd, 2);
    assert_eq!(10 * x + 6 * y, gcd);

    // Test coprime numbers
    let (gcd, x, y) = extended_gcd(7, 3);
    assert_eq!(gcd, 1);
    assert_eq!(7 * x + 3 * y, gcd);
}

#[test]
fn test_mod_inverse() {
    // Test inverse of 3 mod 7
    let inv = mod_inverse(3, 7).unwrap();
    assert_eq!((3 * inv) % 7, 1);

    // Test inverse of 5 mod 11
    let inv = mod_inverse(5, 11).unwrap();
    assert_eq!((5 * inv) % 11, 1);

    // Test no inverse exists (gcd != 1)
    assert_eq!(mod_inverse(6, 9), None);
}

#[test]
fn test_mod_pow() {
    assert_eq!(mod_pow(2, 10, 1000), 24); // 2^10 = 1024, 1024 % 1000 = 24
    assert_eq!(mod_pow(3, 4, 7), 4); // 3^4 = 81, 81 % 7 = 4
    assert_eq!(mod_pow(5, 0, 13), 1); // Any number to power 0 is 1
}

#[test]
fn test_extended_gcd_negative_operands() {
    // the gcd carries the sign the truncated remainder chain ends with
    let (gcd, x, y) = extended_gcd(-10, 6);
    assert_eq!(gcd, 2);
    assert_eq!(-10 * x + 6 * y, gcd);

    let (gcd, x, y) = extended_gcd(10, -6);
    assert_eq!(gcd, -2);
    assert_eq!(10 * x + -6 * y, gcd);

    let (gcd, x, y) = extended_gcd(-7, -3);
    assert_eq!(gcd, -1);
    assert_eq!(-7 * x + -3 * y, gcd);
}

#[test]
fn test_extended_gcd_zero_operands() {
    // the base case hands back the second operand with its sign
    assert_eq!(extended_gcd(0, 5), (5, 0, 1));
    assert_eq!(extended_gcd(0, -5), (-5, 0, 1));
    assert_eq!(extended_gcd(0, 0), (0, 0, 1));
    assert_eq!(extended_gcd(7, 0), (7, 1, 0));
    assert_eq!(extended_gcd(-7, 0), (-7, 1, 0));
}

#[test]
fn test_mod_inverse_modulus_one() {
    // everything is congruent modulo 1, so the inverse is the residue 0
    assert_eq!(mod_inverse(0, 1), Some(0));
    assert_eq!(mod_inverse(7, 1), Some(0));
}

#[test]
fn test_mod_pow_modulus_one() {
    assert_eq!(mod_pow(9, 9, 1), 0);
}

#[test]
fn test_mod_pow_large_base() {
    // the base is reduced before squaring, so wide values stay exact
    assert_eq!(mod_pow(u64::MAX, 2, 1_000_000_007), {
        let b = (u64::MAX % 1_000_000_007) as u128;
        ((b * b) % 1_000_000_007) as u64
    });
}
