use sss_ring::{Int, Polynomial};

fn poly(coeffs: &[i64]) -> Polynomial {
    Polynomial::new(coeffs.iter().map(|c| Int::from_i64(*c)).collect())
}

fn ints(coeffs: &[i64]) -> Vec<Int> {
    coeffs.iter().map(|c| Int::from_i64(*c)).collect()
}

#[test]
fn from_i64s_builds_the_same_polynomial() {
    assert_eq!(Polynomial::from_i64s(&vec![1, -2, 3]).coeffs, ints(&[1, -2, 3]));
    assert!(Polynomial::from_i64s(&vec![]).coeffs.is_empty());
}

#[test]
fn degree_is_the_highest_index_that_is_not_zero() {
    assert_eq!(poly(&[1, 2, 3]).degree(), Some(2));
    assert_eq!(poly(&[1, 2, 0, 0]).degree(), Some(1));
    assert_eq!(poly(&[5]).degree(), Some(0));
    assert_eq!(poly(&[0]).degree(), None);
    assert_eq!(poly(&[0, 0, 0]).degree(), None);
    assert_eq!(poly(&[]).degree(), None);
}

#[test]
fn is_zero_takes_both_forms_of_zero() {
    assert!(poly(&[]).is_zero());
    assert!(poly(&[0]).is_zero());
    assert!(poly(&[0, 0, 0]).is_zero());
    assert!(!poly(&[0, 1]).is_zero());
    assert!(!poly(&[1, 0]).is_zero());
}

#[test]
fn trim_pops_trailing_zeros() {
    let mut p = poly(&[1, 0, 2, 0, 0]);
    p.trim();
    assert_eq!(p.coeffs, ints(&[1, 0, 2]));
    let mut z = poly(&[0, 0]);
    z.trim();
    assert!(z.coeffs.is_empty());
    let mut e = poly(&[]);
    e.trim();
    assert!(e.coeffs.is_empty());
}

#[test]
fn trim_is_idempotent() {
    let mut once = poly(&[0, 3, 0, 0]);
    once.trim();
    let mut twice = once.clone();
    twice.trim();
    assert_eq!(once.coeffs, twice.coeffs);
    assert_eq!(once.coeffs, ints(&[0, 3]));
}

#[test]
fn trimmed_poly_leaves_the_original() {
    let p = poly(&[4, 0, 0]);
    let t = p.trimmed_poly();
    assert_eq!(t.coeffs, ints(&[4]));
    assert_eq!(p.coeffs, ints(&[4, 0, 0]));
}

#[test]
fn equality_is_after_trimming() {
    assert!(poly(&[1, 2]) == poly(&[1, 2, 0, 0]));
    assert!(poly(&[]) == poly(&[0, 0]));
    assert!(poly(&[1, 2]) != poly(&[1, 3]));
    assert!(poly(&[1, 2]) != poly(&[1, 2, 1]));
    assert!(poly(&[0, 1]) != poly(&[1, 0]));
}

#[test]
fn change_ring_reduces_each_coefficient() {
    let m = Int::from_i64(5);
    assert_eq!(poly(&[7, -1, 5, 4]).change_ring(&m).coeffs, ints(&[2, 4, 0, 4]));
}

#[test]
fn add_pads_the_shorter() {
    let m = Int::from_i64(7);
    assert_eq!(poly(&[1, 2, 3]).add(&poly(&[6, 6]), &m).coeffs, ints(&[0, 1, 3]));
    assert_eq!(poly(&[6, 6]).add(&poly(&[1, 2, 3]), &m).coeffs, ints(&[0, 1, 3]));
    assert_eq!(poly(&[]).add(&poly(&[8]), &m).coeffs, ints(&[1]));
}

#[test]
fn sub_mod_never_gives_a_negative_coefficient() {
    let m = Int::from_i64(7);
    assert_eq!(poly(&[1, 2]).sub_mod(&poly(&[3, 2, 1]), &m).coeffs, ints(&[5, 0, 6]));
    assert_eq!(poly(&[3, 2, 1]).sub_mod(&poly(&[1, 2]), &m).coeffs, ints(&[2, 0, 1]));
}

#[test]
fn scale_multiplies_each_coefficient() {
    let m = Int::from_i64(7);
    assert_eq!(poly(&[1, 2, 3]).scale(&Int::from_i64(5), &m).coeffs, ints(&[5, 3, 1]));
    assert_eq!(poly(&[1, 2, 3]).scale(&Int::from_i64(0), &m).coeffs, ints(&[0, 0, 0]));
}

#[test]
fn mul_is_the_schoolbook_product() {
    let m = Int::from_i64(7);
    // (1 + 2x + 3x^2)(4 + 5x) = 4 + 13x + 22x^2 + 15x^3
    assert_eq!(poly(&[1, 2, 3]).mul(&poly(&[4, 5]), &m).coeffs, ints(&[4, 6, 1, 1]));
    assert_eq!(poly(&[4, 5]).mul(&poly(&[1, 2, 3]), &m).coeffs, ints(&[4, 6, 1, 1]));
    let big = Int::from_i64(1000);
    assert_eq!(poly(&[1, 2, 3]).mul(&poly(&[4, 5]), &big).coeffs, ints(&[4, 13, 22, 15]));
}

#[test]
fn mul_with_nothing_stored_gives_nothing() {
    let m = Int::from_i64(7);
    assert!(poly(&[1, 2, 3]).mul(&poly(&[]), &m).coeffs.is_empty());
    assert!(poly(&[]).mul(&poly(&[1, 2, 3]), &m).coeffs.is_empty());
}

#[test]
fn mul_by_a_constant_keeps_the_length() {
    let m = Int::from_i64(4);
    assert_eq!(poly(&[1, 2, 3]).mul(&poly(&[2]), &m).coeffs, ints(&[2, 0, 2]));
}

#[test]
fn mul_is_associative_and_distributes() {
    let m = Int::from_i64(9);
    let a = poly(&[1, 2, 3]);
    let b = poly(&[4, 0, 5, 6]);
    let c = poly(&[7, 8]);
    let left = a.mul(&b, &m).mul(&c, &m);
    let right = a.mul(&b.mul(&c, &m), &m);
    assert_eq!(left.coeffs, right.coeffs);
    let sum_first = a.add(&b, &m).mul(&c, &m);
    let mul_first = a.mul(&c, &m).add(&b.mul(&c, &m), &m);
    assert!(sum_first == mul_first);
}

#[test]
fn remainder_by_a_divisor() {
    let m = Int::from_i64(7);
    assert_eq!(poly(&[1, 1, 0, 0, 1]).rem(&poly(&[1, 0, 1]), &m).unwrap().coeffs, ints(&[2, 1]));
    assert_eq!(
        poly(&[1, 1, 0, 0, 1]).rem(&poly(&[]), &m).err(),
        Some(sss_ring::RingError::NotInvertible)
    );
}

#[test]
fn table_of_irreducible_polynomials() {
    let table = |d: usize| sss_ring::polynomial::irreducible_polynomial(d).map(|p| p.coeffs);
    assert_eq!(table(0), None);
    assert_eq!(table(1), Some(ints(&[1, 1])));
    assert_eq!(table(2), Some(ints(&[1, 1, 1])));
    assert_eq!(table(3), Some(ints(&[1, 1, 0, 1])));
    assert_eq!(table(4), Some(ints(&[1, 1, 0, 0, 1])));
    assert_eq!(table(5), Some(ints(&[1, 0, 1, 0, 0, 1])));
    assert_eq!(table(6), None);
}
