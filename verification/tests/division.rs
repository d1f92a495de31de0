use sss_ring::{
    extended_euclidean, mod_inverse, polynomial_long_division, Int, Polynomial, RingError,
};

fn poly(coeffs: &[i64]) -> Polynomial {
    Polynomial::new(coeffs.iter().map(|c| Int::from_i64(*c)).collect())
}

fn ints(coeffs: &[i64]) -> Vec<Int> {
    coeffs.iter().map(|c| Int::from_i64(*c)).collect()
}

#[test]
fn main_test_polynomial_long_division() {
    // Define the modulus: 7
    let modulus = Int::from_i64(7);

    // Define the dividend: x^4 + x + 1
    let dividend = Polynomial::new(vec![
        Int::from_i64(1), // Coefficient for x^0
        Int::from_i64(1), // Coefficient for x^1
        Int::from_i64(0), // Coefficient for x^2
        Int::from_i64(0), // Coefficient for x^3
        Int::from_i64(1), // Coefficient for x^4
    ]);

    // Define the divisor: x^2 + 1
    let divisor = Polynomial::new(vec![
        Int::from_i64(1), // Coefficient for x^0
        Int::from_i64(0), // Coefficient for x^1
        Int::from_i64(1), // Coefficient for x^2
    ]);

    // Perform polynomial long division
    let (quotient, remainder) = polynomial_long_division(&dividend, &divisor, &modulus).unwrap();

    // Expected quotient: x^2 + 6
    let expected_quotient = Polynomial::new(vec![
        Int::from_i64(6), // Coefficient for x^0
        Int::from_i64(0), // Coefficient for x^1
        Int::from_i64(1), // Coefficient for x^2
    ]);

    // Expected remainder: x + 2
    let expected_remainder = Polynomial::new(vec![
        Int::from_i64(2), // Coefficient for x^0
        Int::from_i64(1), // Coefficient for x^1
    ]);

    assert_eq!(quotient.coeffs, expected_quotient.coeffs, "Quotient does not match expected value");
    assert_eq!(
        remainder.coeffs, expected_remainder.coeffs,
        "Remainder does not match expected value"
    );
}

#[test]
fn working_version_test_polynomial_long_division() {
    let modulus = Int::from_i64(7);

    let dividend = Polynomial::new(vec![
        Int::from_i64(1),
        Int::from_i64(1),
        Int::from_i64(0),
        Int::from_i64(0),
        Int::from_i64(1),
    ]);

    let divisor = Polynomial::new(vec![Int::from_i64(1), Int::from_i64(0), Int::from_i64(1)]);

    let (quotient, remainder) = polynomial_long_division(&dividend, &divisor, &modulus).unwrap();

    let expected_quotient =
        Polynomial::new(vec![Int::from_i64(6), Int::from_i64(0), Int::from_i64(1)]);

    let expected_remainder = Polynomial::new(vec![Int::from_i64(2), Int::from_i64(1)]);

    assert_eq!(quotient.coeffs, expected_quotient.coeffs, "Quotient does not match expected value");
    assert_eq!(
        remainder.coeffs, expected_remainder.coeffs,
        "Remainder does not match expected value"
    );
}

#[test]
fn main_test_extended_euclidean() {
    let modulus = Int::from_i64(7);

    let a = Polynomial::new(vec![
        Int::from_i64(1), // Coefficient for x^0
        Int::from_i64(1), // Coefficient for x^1
        Int::from_i64(0), // Coefficient for x^2
        Int::from_i64(1), // Coefficient for x^3
        Int::from_i64(1), // Coefficient for x^4
    ]);
    let b = Polynomial::new(vec![
        Int::from_i64(1), // Coefficient for x^0
        Int::from_i64(0), // Coefficient for x^1
        Int::from_i64(1), // Coefficient for x^2
    ]);

    let (gcd, s, t) = extended_euclidean(&a, &b, &modulus).unwrap();

    // s*a + t*b = gcd
    let left_side = s.mul(&a, &modulus).add(&t.mul(&b, &modulus), &modulus);
    assert!(left_side == gcd);

    // Verify that gcd is indeed the greatest common divisor
    assert!(
        gcd.degree() <= b.degree(),
        "GCD should have a degree less than or equal to the smaller polynomial"
    );
}

#[test]
fn working_version_test_extended_euclidean() {
    let modulus = Int::from_i64(7);

    let a = Polynomial::new(vec![
        Int::from_i64(1),
        Int::from_i64(1),
        Int::from_i64(0),
        Int::from_i64(1),
        Int::from_i64(1),
    ]);
    let b = Polynomial::new(vec![Int::from_i64(1), Int::from_i64(0), Int::from_i64(1)]);

    let (gcd, s, t) = extended_euclidean(&a, &b, &modulus).unwrap();

    let left_side = s.mul(&a, &modulus).add(&t.mul(&b, &modulus), &modulus);
    assert!(left_side == gcd);

    assert!(
        gcd.degree() <= b.degree(),
        "GCD should have a degree less than or equal to the smaller polynomial"
    );
}

#[test]
fn extended_euclidean_gives_the_expected_cofactors() {
    let modulus = Int::from_i64(7);
    let a = poly(&[1, 1, 0, 1, 1]);
    let b = poly(&[1, 0, 1]);
    let (gcd, s, t) = extended_euclidean(&a, &b, &modulus).unwrap();
    assert_eq!(gcd.coeffs, ints(&[2]));
    assert_eq!(s.coeffs, ints(&[1]));
    assert_eq!(t.coeffs, ints(&[1, 6, 6]));
}

#[test]
fn extended_euclidean_of_zero_second_argument() {
    let modulus = Int::from_i64(7);
    let a = poly(&[3, 0, 1]);
    let b = poly(&[0, 0]);
    let (gcd, s, t) = extended_euclidean(&a, &b, &modulus).unwrap();
    assert_eq!(gcd.coeffs, ints(&[3, 0, 1]));
    assert_eq!(s.coeffs, ints(&[1]));
    assert!(t.is_zero());
}

#[test]
fn extended_euclidean_gets_stuck_on_a_zero_divisor() {
    // x^3 + x + 1 = x * (x^2 + 3) + (2x + 1) over Z/4Z, and 2 is no unit.
    let modulus = Int::from_i64(4);
    let a = poly(&[1, 1, 0, 1]);
    let b = poly(&[3, 0, 1]);
    assert_eq!(extended_euclidean(&a, &b, &modulus).err(), Some(RingError::NotInvertible));
}

#[test]
fn long_division_identity_holds() {
    let modulus = Int::from_i64(7);
    let dividend = poly(&[1, 1, 0, 0, 1]);
    let divisor = poly(&[1, 0, 1]);
    let (q, r) = polynomial_long_division(&dividend, &divisor, &modulus).unwrap();
    let back = q.mul(&divisor, &modulus).add(&r, &modulus);
    assert!(back == dividend);
    assert!(r.degree() < divisor.degree());
}

#[test]
fn long_division_rejects_a_leading_zero_divisor() {
    let modulus = Int::from_i64(6);
    let dividend = poly(&[1, 2, 3, 4]);
    let divisor = poly(&[1, 2]);
    assert_eq!(
        polynomial_long_division(&dividend, &divisor, &modulus).err(),
        Some(RingError::NotInvertible)
    );
}

#[test]
fn long_division_rejects_the_zero_divisor_polynomial() {
    let modulus = Int::from_i64(7);
    let dividend = poly(&[1, 2, 3]);
    assert_eq!(
        polynomial_long_division(&dividend, &poly(&[]), &modulus).err(),
        Some(RingError::NotInvertible)
    );
    assert_eq!(
        polynomial_long_division(&dividend, &poly(&[0, 7, 14]), &modulus).err(),
        Some(RingError::NotInvertible)
    );
}

#[test]
fn long_division_works_against_the_trimmed_divisor() {
    let modulus = Int::from_i64(7);
    let dividend = poly(&[1, 1, 0, 0, 1]);
    let divisor = poly(&[1, 0, 1, 0, 0]);
    let (q, r) = polynomial_long_division(&dividend, &divisor, &modulus).unwrap();
    assert_eq!(q.coeffs, ints(&[6, 0, 1]));
    assert_eq!(r.coeffs, ints(&[2, 1]));
}

#[test]
fn long_division_of_a_shorter_dividend() {
    let modulus = Int::from_i64(7);
    let dividend = poly(&[9, 1]);
    let divisor = poly(&[1, 0, 1]);
    let (q, r) = polynomial_long_division(&dividend, &divisor, &modulus).unwrap();
    assert!(q.coeffs.is_empty());
    assert_eq!(r.coeffs, ints(&[2, 1]));
}

#[test]
fn long_division_by_a_divisor_that_is_not_monic() {
    // (3x + 1) * (2x + 5) + 4 = 6x^2 + 17x + 9 = 6x^2 + 3x + 2 modulo 7
    let modulus = Int::from_i64(7);
    let dividend = poly(&[2, 3, 6]);
    let divisor = poly(&[1, 3]);
    let (q, r) = polynomial_long_division(&dividend, &divisor, &modulus).unwrap();
    assert_eq!(q.coeffs, ints(&[5, 2]));
    assert_eq!(r.coeffs, ints(&[4]));
}

#[test]
fn long_division_takes_negative_coefficients() {
    let modulus = Int::from_i64(7);
    let dividend = poly(&[-6, 1, 0, 0, -6]);
    let divisor = poly(&[1, 0, -6]);
    let (q, r) = polynomial_long_division(&dividend, &divisor, &modulus).unwrap();
    assert_eq!(q.coeffs, ints(&[6, 0, 1]));
    assert_eq!(r.coeffs, ints(&[2, 1]));
}

#[test]
fn mod_inverse_of_units_and_zero_divisors() {
    let seven = Int::from_i64(7);
    assert_eq!(mod_inverse(Int::from_i64(3), &seven), Some(Int::from_i64(5)));
    assert_eq!(mod_inverse(Int::from_i64(1), &seven), Some(Int::from_i64(1)));
    assert_eq!(mod_inverse(Int::from_i64(0), &seven), None);
    assert_eq!(mod_inverse(Int::from_i64(10), &seven), Some(Int::from_i64(5)));
    assert_eq!(mod_inverse(Int::from_i64(-4), &seven), Some(Int::from_i64(5)));
    let six = Int::from_i64(6);
    assert_eq!(mod_inverse(Int::from_i64(2), &six), None);
    assert_eq!(mod_inverse(Int::from_i64(3), &six), None);
    assert_eq!(mod_inverse(Int::from_i64(5), &six), Some(Int::from_i64(5)));
    let four = Int::from_i64(4);
    assert_eq!(mod_inverse(Int::from_i64(2), &four), None);
    assert_eq!(mod_inverse(Int::from_i64(3), &four), Some(Int::from_i64(3)));
}

#[test]
fn mod_inverse_times_the_number_is_one() {
    let m = Int::from_i64(1_000_003);
    let mut a: i64 = 1;
    while a < 200 {
        let x = mod_inverse(Int::from_i64(a), &m).unwrap();
        assert_eq!(sss_ring::modint::mul_mod(&Int::from_i64(a), &x, &m), Int::from_i64(1));
        a += 1;
    }
}
