use sss_ring::{Element, GaloisRing, Int, Polynomial, RingError};

fn poly(coeffs: &[i64]) -> Polynomial {
    Polynomial::new(coeffs.iter().map(|c| Int::from_i64(*c)).collect())
}

fn ints(coeffs: &[i64]) -> Vec<Int> {
    coeffs.iter().map(|c| Int::from_i64(*c)).collect()
}

fn ring(m: i64, f: &[i64]) -> GaloisRing {
    GaloisRing::new(Int::from_i64(m), poly(f)).unwrap()
}

fn elem(r: &GaloisRing, coeffs: &[i64]) -> Element {
    r.element(&poly(coeffs))
}

#[test]
fn new_rejects_a_modulus_below_two() {
    assert_eq!(
        GaloisRing::new(Int::from_i64(1), poly(&[1, 0, 1])).err(),
        Some(RingError::InvalidRingConfiguration)
    );
    assert_eq!(
        GaloisRing::new(Int::from_i64(0), poly(&[1, 0, 1])).err(),
        Some(RingError::InvalidRingConfiguration)
    );
    assert_eq!(
        GaloisRing::new(Int::from_i64(-7), poly(&[1, 0, 1])).err(),
        Some(RingError::InvalidRingConfiguration)
    );
}

#[test]
fn new_rejects_a_degree_below_one() {
    assert_eq!(
        GaloisRing::new(Int::from_i64(7), poly(&[3])).err(),
        Some(RingError::InvalidRingConfiguration)
    );
    assert_eq!(
        GaloisRing::new(Int::from_i64(7), poly(&[])).err(),
        Some(RingError::InvalidRingConfiguration)
    );
    // x^2 vanishes modulo 7 when its coefficient is 7.
    assert_eq!(
        GaloisRing::new(Int::from_i64(7), poly(&[1, 0, 7])).err(),
        Some(RingError::InvalidRingConfiguration)
    );
}

#[test]
fn new_rejects_a_leading_coefficient_that_is_no_unit() {
    assert_eq!(
        GaloisRing::new(Int::from_i64(4), poly(&[1, 1, 2])).err(),
        Some(RingError::NotInvertible)
    );
}

#[test]
fn new_takes_the_polynomial_modulo_m() {
    let r = ring(7, &[8, 0, 1, 0, 14]);
    assert_eq!(r.irreducible().coeffs, ints(&[1, 0, 1]));
    assert_eq!(*r.modulus(), Int::from_i64(7));
    assert_eq!(r.degree(), 2);
}

#[test]
fn elements_have_as_many_coefficients_as_the_degree() {
    let r = ring(7, &[1, 1, 0, 1]);
    assert_eq!(r.zero().coefficients(), ints(&[0, 0, 0]));
    assert_eq!(r.one().coefficients(), ints(&[1, 0, 0]));
    assert_eq!(elem(&r, &[5]).coefficients(), ints(&[5, 0, 0]));
    assert_eq!(elem(&r, &[]).coefficients(), ints(&[0, 0, 0]));
    // x^3 = -x - 1 = 6x + 6
    assert_eq!(elem(&r, &[0, 0, 0, 1]).coefficients(), ints(&[6, 6, 0]));
    assert!(r.zero().is_zero());
    assert!(!r.one().is_zero());
    assert_eq!(elem(&r, &[1, 2]).to_polynomial().coeffs, ints(&[1, 2, 0]));
}

#[test]
fn reduction_is_idempotent() {
    let r = ring(7, &[1, 1, 0, 1]);
    let once = elem(&r, &[3, 1, 4, 1, 5, 9, 2, 6]);
    let twice = r.element(&once.to_polynomial());
    assert_eq!(once, twice);
    let r4 = ring(4, &[1, 1, 1]);
    let once = elem(&r4, &[3, 1, 4, 1, 5]);
    let twice = r4.element(&once.to_polynomial());
    assert_eq!(once, twice);
}

#[test]
fn add_sub_and_neg_work_on_each_coefficient() {
    let r = ring(7, &[1, 0, 1]);
    let a = elem(&r, &[3, 2]);
    let b = elem(&r, &[5, 6]);
    assert_eq!(r.add_ring(&a, &b).coefficients(), ints(&[1, 1]));
    assert_eq!(r.sub_ring(&a, &b).coefficients(), ints(&[5, 3]));
    assert_eq!(r.neg_ring(&a).coefficients(), ints(&[4, 5]));
    assert_eq!(r.add_ring(&a, &r.neg_ring(&a)), r.zero());
}

#[test]
fn mul_ring_reduces_by_f() {
    // In Z/7Z[x]/(x^2 + 1): (3 + 2x)(1 + x) = 3 + 5x + 2x^2 = 1 + 5x
    let r = ring(7, &[1, 0, 1]);
    let a = elem(&r, &[3, 2]);
    let b = elem(&r, &[1, 1]);
    assert_eq!(r.mul_ring(&a, &b).coefficients(), ints(&[1, 5]));
    assert_eq!(r.mul_ring(&b, &a).coefficients(), ints(&[1, 5]));
    assert_eq!(r.mul_ring(&a, &r.one()), a);
    assert_eq!(r.mul_ring(&a, &r.zero()), r.zero());
}

#[test]
fn power_in_ring_multiplies_repeatedly() {
    let r = ring(7, &[1, 0, 1]);
    let x = elem(&r, &[0, 1]);
    assert_eq!(r.power_in_ring(&x, 0), r.one());
    assert_eq!(r.power_in_ring(&x, 1), x);
    assert_eq!(r.power_in_ring(&x, 2).coefficients(), ints(&[6, 0]));
    assert_eq!(r.power_in_ring(&x, 3).coefficients(), ints(&[0, 6]));
    assert_eq!(r.power_in_ring(&x, 4), r.one());
    assert_eq!(r.power_in_ring(&r.zero(), 0), r.one());
    assert_eq!(r.power_in_ring(&r.zero(), 3), r.zero());
}

#[test]
fn inverse_times_the_element_is_one() {
    let r = ring(7, &[1, 1, 0, 1]);
    let mut a: i64 = 0;
    while a < 7 {
        let mut b: i64 = 0;
        while b < 7 {
            let mut c: i64 = 0;
            while c < 7 {
                let e = elem(&r, &[a, b, c]);
                if e.is_zero() {
                    assert_eq!(r.inverse(&e).err(), Some(RingError::ZeroDivisorInRing));
                } else {
                    let inv = r.inverse(&e).unwrap();
                    assert_eq!(r.mul_ring(&e, &inv), r.one());
                }
                c += 1;
            }
            b += 1;
        }
        a += 1;
    }
}

#[test]
fn inverse_of_known_elements() {
    // In Z/7Z[x]/(x^2 + 1): x * (-x) = 1, so the inverse of x is 6x.
    let r = ring(7, &[1, 0, 1]);
    assert_eq!(r.inverse(&elem(&r, &[0, 1])).unwrap().coefficients(), ints(&[0, 6]));
    assert_eq!(r.inverse(&elem(&r, &[3])).unwrap().coefficients(), ints(&[5, 0]));
    assert_eq!(r.inverse(&r.one()).unwrap(), r.one());
}

#[test]
fn inverse_of_a_zero_divisor_is_not_found() {
    // m = 4, f = x^2 + x + 1: 2 * 2 = 0.
    let r = ring(4, &[1, 1, 1]);
    let two = elem(&r, &[2]);
    assert!(r.find_inverse_in_galois_ring(&two).is_none());
    assert_eq!(r.inverse(&two).err(), Some(RingError::NotInvertible));
}

#[test]
fn inverse_of_zero_is_a_zero_divisor_error() {
    let r = ring(7, &[1, 0, 1]);
    assert_eq!(r.inverse(&r.zero()).err(), Some(RingError::ZeroDivisorInRing));
    assert!(r.find_inverse_in_galois_ring(&r.zero()).is_none());
}

#[test]
fn inverse_where_f_is_reducible() {
    // x^2 - 1 = (x - 1)(x + 1) over Z/7Z: x - 1 divides f.
    let r = ring(7, &[6, 0, 1]);
    assert_eq!(r.inverse(&elem(&r, &[6, 1])).err(), Some(RingError::ZeroDivisorInRing));
    // x is a unit: x * x = 1.
    assert_eq!(r.inverse(&elem(&r, &[0, 1])).unwrap().coefficients(), ints(&[0, 1]));
}

#[test]
fn inverse_in_a_ring_with_zero_divisors() {
    // m = 4, f = x^3 + x + 1.
    let r = ring(4, &[1, 1, 0, 1]);
    // x - 1 = x + 3 is a unit.
    let e = elem(&r, &[3, 1]);
    let inv = r.find_inverse_in_galois_ring(&e).unwrap();
    assert_eq!(r.mul_ring(&e, &inv), r.one());
    // 3 is a unit, 2 is not.
    assert_eq!(r.inverse(&elem(&r, &[3])).unwrap().coefficients(), ints(&[3, 0, 0]));
    assert!(r.find_inverse_in_galois_ring(&elem(&r, &[2])).is_none());
}

#[test]
fn is_element_tells_the_rings_apart() {
    let r7 = ring(7, &[1, 0, 1]);
    let r4 = ring(4, &[1, 0, 1]);
    let r7_cubic = ring(7, &[1, 1, 0, 1]);
    let a = elem(&r7, &[6, 2]);
    assert!(r7.is_element(&a));
    assert!(!r4.is_element(&a));
    assert!(!r7_cubic.is_element(&a));
    assert!(r4.is_element(&elem(&r4, &[6, 2])));
}

#[test]
fn element_equality_and_clone() {
    let r = ring(7, &[1, 0, 1]);
    let a = elem(&r, &[3, 2]);
    assert_eq!(a.clone(), a);
    assert_ne!(a, elem(&r, &[3, 3]));
    assert_eq!(elem(&r, &[10, 9]), a);
}
