use rand::rngs::StdRng;
use rand::SeedableRng;
use sss_ring::exceptional::{digits_of, smallest_factor};
use sss_ring::{Element, GaloisRing, Int, Polynomial, RingError};

fn poly(coeffs: &[i64]) -> Polynomial {
    Polynomial::new(coeffs.iter().map(|c| Int::from_i64(*c)).collect())
}

fn ints(coeffs: &[i64]) -> Vec<Int> {
    coeffs.iter().map(|c| Int::from_i64(*c)).collect()
}

fn ring(m: i64, f: &[i64]) -> GaloisRing {
    GaloisRing::new(Int::from_i64(m), poly(f)).unwrap()
}

fn elem(r: &GaloisRing, coeffs: &[i64]) -> Element {
    r.element(&poly(coeffs))
}

fn pick(shares: &[(Element, Element)], indices: &[usize]) -> Vec<(Element, Element)> {
    indices.iter().map(|i| shares[*i].clone()).collect()
}

#[test]
fn smallest_factor_of_primes_and_prime_powers() {
    assert_eq!(smallest_factor(&Int::from_i64(2)), Int::from_i64(2));
    assert_eq!(smallest_factor(&Int::from_i64(7)), Int::from_i64(7));
    assert_eq!(smallest_factor(&Int::from_i64(4)), Int::from_i64(2));
    assert_eq!(smallest_factor(&Int::from_i64(9)), Int::from_i64(3));
    assert_eq!(smallest_factor(&Int::from_i64(27)), Int::from_i64(3));
    assert_eq!(smallest_factor(&Int::from_i64(49)), Int::from_i64(7));
    assert_eq!(smallest_factor(&Int::from_i64(35)), Int::from_i64(5));
    assert_eq!(smallest_factor(&Int::from_i64(1_000_003)), Int::from_i64(1_000_003));
}

#[test]
fn digits_in_base_p() {
    let three = Int::from_i64(3);
    assert_eq!(digits_of(0, &three, 3), Some(ints(&[0, 0, 0])));
    assert_eq!(digits_of(5, &three, 3), Some(ints(&[2, 1, 0])));
    assert_eq!(digits_of(26, &three, 3), Some(ints(&[2, 2, 2])));
    assert_eq!(digits_of(27, &three, 3), None);
    assert_eq!(digits_of(0, &three, 0), Some(ints(&[])));
    assert_eq!(digits_of(1, &three, 0), None);
}

#[test]
fn exceptional_set_of_a_ring_of_characteristic_four() {
    // m = 4, f = x^3 + x + 1: eight elements with coefficients 0 and 1.
    let r = ring(4, &[1, 1, 0, 1]);
    assert_eq!(r.characteristic(), Int::from_i64(2));
    let set = r.generate_exceptional_set();
    assert_eq!(set.len(), 8);
    assert_eq!(set[0].coefficients(), ints(&[0, 0, 0]));
    assert_eq!(set[1].coefficients(), ints(&[1, 0, 0]));
    assert_eq!(set[2].coefficients(), ints(&[0, 1, 0]));
    assert_eq!(set[3].coefficients(), ints(&[1, 1, 0]));
    assert_eq!(set[4].coefficients(), ints(&[0, 0, 1]));
    assert_eq!(set[5].coefficients(), ints(&[1, 0, 1]));
    assert_eq!(set[6].coefficients(), ints(&[0, 1, 1]));
    assert_eq!(set[7].coefficients(), ints(&[1, 1, 1]));
    assert_eq!(r.exceptional_element(7), Some(set[7].clone()));
    assert_eq!(r.exceptional_element(8), None);
}

#[test]
fn exceptional_set_differences_in_a_ring_of_characteristic_four() {
    // Of the 28 differences, the algorithm inverts 22. On the other six
    // the Euclidean algorithm meets the remainder 2x + 1, whose leading
    // coefficient is no unit modulo 4.
    let r = ring(4, &[1, 1, 0, 1]);
    let set = r.generate_exceptional_set();
    // (x) - (1) is invertible.
    let d = r.sub_ring(&set[2], &set[1]);
    let inv = r.find_inverse_in_galois_ring(&d).unwrap();
    assert_eq!(r.mul_ring(&d, &inv), r.one());
    let stuck: [(usize, usize); 6] = [(0, 6), (1, 4), (1, 7), (2, 4), (3, 5), (3, 6)];
    let mut found = 0;
    let mut a = 0;
    while a < 8 {
        let mut b = a + 1;
        while b < 8 {
            let d = r.sub_ring(&set[a], &set[b]);
            let back = r.sub_ring(&set[b], &set[a]);
            if stuck.contains(&(a, b)) {
                assert_eq!(r.inverse(&d).err(), Some(RingError::NotInvertible));
                assert_eq!(r.inverse(&back).err(), Some(RingError::NotInvertible));
            } else {
                let inv = r.inverse(&d).unwrap();
                assert_eq!(r.mul_ring(&d, &inv), r.one());
                let inv = r.inverse(&back).unwrap();
                assert_eq!(r.mul_ring(&back, &inv), r.one());
                found += 1;
            }
            b += 1;
        }
        a += 1;
    }
    assert_eq!(found, 22);
}

#[test]
fn exceptional_set_differences_are_units_over_a_field() {
    let r = ring(2, &[1, 1, 0, 1]);
    let set = r.generate_exceptional_set();
    assert_eq!(set.len(), 8);
    let mut a = 0;
    while a < 8 {
        let mut b = 0;
        while b < 8 {
            if a != b {
                let d = r.sub_ring(&set[a], &set[b]);
                let inv = r.find_inverse_in_galois_ring(&d).unwrap();
                assert_eq!(r.mul_ring(&d, &inv), r.one());
            }
            b += 1;
        }
        a += 1;
    }
}

#[test]
fn exceptional_set_differences_are_units_for_degree_two() {
    // m = 9, f = x^2 + 1, which is irreducible modulo 3.
    let r = ring(9, &[1, 0, 1]);
    let set = r.generate_exceptional_set();
    assert_eq!(set.len(), 9);
    let mut a = 0;
    while a < 9 {
        let mut b = 0;
        while b < 9 {
            if a != b {
                let d = r.sub_ring(&set[a], &set[b]);
                let inv = r.find_inverse_in_galois_ring(&d).unwrap();
                assert_eq!(r.mul_ring(&d, &inv), r.one());
            }
            b += 1;
        }
        a += 1;
    }
}

#[test]
fn evaluate_polynomial_sums_the_powers() {
    // P(X) = (3 + 2x) + (1 + x) X over Z/7Z[x]/(x^2 + 1)
    let r = ring(7, &[1, 0, 1]);
    let c = vec![elem(&r, &[3, 2]), elem(&r, &[1, 1])];
    assert_eq!(r.evaluate_polynomial(&r.zero(), &c).coefficients(), ints(&[3, 2]));
    assert_eq!(r.evaluate_polynomial(&elem(&r, &[1]), &c).coefficients(), ints(&[4, 3]));
    // P(x) = 3 + 2x + x + x^2 = 2 + 3x
    assert_eq!(r.evaluate_polynomial(&elem(&r, &[0, 1]), &c).coefficients(), ints(&[2, 3]));
    assert_eq!(r.evaluate_polynomial(&elem(&r, &[5]), &vec![]), r.zero());
}

#[test]
fn share_over_a_field_with_a_fixed_polynomial() {
    // m = 7, f = x^2 + 1, secret 3 + 2x, a1 = 1 + x, n = 4, t = 2.
    let r = ring(7, &[1, 0, 1]);
    let secret = elem(&r, &[3, 2]);
    let c = vec![secret.clone(), elem(&r, &[1, 1])];
    let shares = r.shamir_secret_sharing_non_random(&c, 4).unwrap();
    assert_eq!(shares.len(), 4);
    assert_eq!(shares[0].0.coefficients(), ints(&[1, 0]));
    assert_eq!(shares[1].0.coefficients(), ints(&[2, 0]));
    assert_eq!(shares[2].0.coefficients(), ints(&[3, 0]));
    assert_eq!(shares[3].0.coefficients(), ints(&[4, 0]));
    assert_eq!(shares[0].1.coefficients(), ints(&[4, 3]));
    assert_eq!(shares[1].1.coefficients(), ints(&[5, 4]));
    assert_eq!(shares[2].1.coefficients(), ints(&[6, 5]));
    assert_eq!(shares[3].1.coefficients(), ints(&[0, 6]));
    let mut a = 0;
    while a < 4 {
        let mut b = 0;
        while b < 4 {
            if a != b {
                assert_eq!(r.reconstruct_secret(&pick(&shares, &[a, b])).unwrap(), secret);
            }
            b += 1;
        }
        a += 1;
    }
    assert_eq!(r.reconstruct_secret(&shares).unwrap(), secret);
}

#[test]
fn share_and_reconstruct_round_trip() {
    // m = 7, f = x^3 + x + 1, n = 5, t = 3, random secret.
    let r = ring(7, &[1, 1, 0, 1]);
    let mut rng = StdRng::seed_from_u64(2024);
    let secret = r.random_ring_element(&mut rng);
    let shares = r.shamir_secret_sharing(&secret, 5, 3, &mut rng).unwrap();
    assert_eq!(shares.len(), 5);
    let mut count = 0;
    let mut a = 0;
    while a < 5 {
        let mut b = a + 1;
        while b < 5 {
            let mut c = b + 1;
            while c < 5 {
                assert_eq!(r.reconstruct_secret(&pick(&shares, &[a, b, c])).unwrap(), secret);
                assert_eq!(r.reconstruct_secret(&pick(&shares, &[c, a, b])).unwrap(), secret);
                count += 1;
                c += 1;
            }
            b += 1;
        }
        a += 1;
    }
    assert_eq!(count, 10);
    assert_eq!(r.reconstruct_secret(&shares).unwrap(), secret);
    assert_eq!(r.reconstruct_with_threshold(&shares, 3).unwrap(), secret);
}

#[test]
fn round_trip_in_a_ring_of_characteristic_nine() {
    let r = ring(9, &[1, 0, 1]);
    let mut rng = StdRng::seed_from_u64(5);
    let secret = elem(&r, &[8, 6]);
    let shares = r.shamir_secret_sharing(&secret, 8, 3, &mut rng).unwrap();
    assert_eq!(shares.len(), 8);
    assert_eq!(r.reconstruct_secret(&pick(&shares, &[0, 1, 2])).unwrap(), secret);
    assert_eq!(r.reconstruct_secret(&pick(&shares, &[7, 3, 5])).unwrap(), secret);
    assert_eq!(r.reconstruct_secret(&pick(&shares, &[1, 2, 4, 6])).unwrap(), secret);
}

#[test]
fn round_trip_in_a_ring_of_characteristic_four() {
    // m = 4, f = x^3 + x + 1: the combiner gets the secret back from every
    // set of shares for which it finds the inverses, and reports the others.
    let r = ring(4, &[1, 1, 0, 1]);
    let secret = elem(&r, &[3, 2, 1]);
    let c = vec![secret.clone(), elem(&r, &[1, 0, 3])];
    let shares = r.shamir_secret_sharing_non_random(&c, 7).unwrap();
    assert_eq!(shares.len(), 7);
    let mut found = 0;
    let mut stuck = 0;
    let mut a = 0;
    while a < 7 {
        let mut b = a + 1;
        while b < 7 {
            match r.reconstruct_secret(&pick(&shares, &[a, b])) {
                Ok(s) => {
                    assert_eq!(s, secret);
                    found += 1;
                }
                Err(e) => {
                    assert_eq!(e, RingError::ReconstructionDenominatorNotInvertible);
                    stuck += 1;
                }
            }
            b += 1;
        }
        a += 1;
    }
    // The points 1 and x^2 are among those whose difference is not inverted.
    assert_eq!(
        r.reconstruct_secret(&pick(&shares, &[0, 3])).err(),
        Some(RingError::ReconstructionDenominatorNotInvertible)
    );
    assert_eq!(found, 16);
    assert_eq!(stuck, 5);
}

#[test]
fn shares_are_the_values_of_one_polynomial() {
    let r = ring(7, &[1, 1, 0, 1]);
    let mut rng = StdRng::seed_from_u64(77);
    let secret = elem(&r, &[1, 2, 3]);
    let shares = r.shamir_secret_sharing(&secret, 6, 1, &mut rng).unwrap();
    // With threshold one the polynomial is the constant secret.
    let mut i = 0;
    while i < 6 {
        assert_eq!(shares[i].0, r.exceptional_element(i + 1).unwrap());
        assert_eq!(shares[i].1, secret);
        i += 1;
    }
}

#[test]
fn random_elements_differ_and_lie_in_the_ring() {
    let r = ring(1_000_003, &[1, 1, 0, 1]);
    let mut rng = StdRng::seed_from_u64(1);
    let a = r.random_ring_element(&mut rng);
    let b = r.random_ring_element(&mut rng);
    assert_ne!(a, b);
    assert_eq!(a.coefficients().len(), 3);
    for c in a.coefficients() {
        assert!(!c.is_negative());
        assert!(c.lt(r.modulus()));
    }
    let mut again = StdRng::seed_from_u64(1);
    assert_eq!(r.random_ring_element(&mut again), a);
}

#[test]
fn random_polynomial_starts_with_the_secret() {
    let r = ring(7, &[1, 1, 0, 1]);
    let mut rng = StdRng::seed_from_u64(9);
    let secret = elem(&r, &[6, 4]);
    let c = r.generate_random_polynomial_with_secret(&secret, 4, &mut rng);
    assert_eq!(c.len(), 4);
    assert_eq!(c[0], secret);
}

#[test]
fn share_rejects_a_threshold_out_of_range() {
    let r = ring(7, &[1, 0, 1]);
    let mut rng = StdRng::seed_from_u64(0);
    let secret = elem(&r, &[3, 2]);
    assert_eq!(
        r.shamir_secret_sharing(&secret, 4, 0, &mut rng).err(),
        Some(RingError::ThresholdOutOfRange)
    );
    assert_eq!(
        r.shamir_secret_sharing(&secret, 4, 5, &mut rng).err(),
        Some(RingError::ThresholdOutOfRange)
    );
    assert_eq!(
        r.shamir_secret_sharing_non_random(&vec![], 4).err(),
        Some(RingError::ThresholdOutOfRange)
    );
}

#[test]
fn share_rejects_too_many_parties() {
    // p^d - 1 = 7 points apart from zero.
    let r = ring(4, &[1, 1, 0, 1]);
    let mut rng = StdRng::seed_from_u64(0);
    let secret = elem(&r, &[3, 2, 1]);
    assert_eq!(
        r.shamir_secret_sharing(&secret, 8, 2, &mut rng).err(),
        Some(RingError::TooManyParties)
    );
    assert_eq!(r.shamir_secret_sharing(&secret, 7, 2, &mut rng).unwrap().len(), 7);
}

#[test]
fn share_reports_too_many_parties_before_the_threshold() {
    // p^d - 1 = 7 points apart from zero, so eight parties are too many,
    // whatever the threshold is.
    let r = ring(4, &[1, 1, 0, 1]);
    let mut rng = StdRng::seed_from_u64(0);
    let secret = elem(&r, &[3, 2, 1]);
    assert_eq!(
        r.shamir_secret_sharing(&secret, 8, 0, &mut rng).err(),
        Some(RingError::TooManyParties)
    );
    assert_eq!(
        r.shamir_secret_sharing(&secret, 8, 9, &mut rng).err(),
        Some(RingError::TooManyParties)
    );
    assert_eq!(
        r.shamir_secret_sharing(&secret, usize::MAX, 0, &mut rng).err(),
        Some(RingError::TooManyParties)
    );
    assert_eq!(
        r.shamir_secret_sharing_non_random(&vec![], 8).err(),
        Some(RingError::TooManyParties)
    );
    let nine = vec![secret.clone(); 9];
    assert_eq!(
        r.shamir_secret_sharing_non_random(&nine, 8).err(),
        Some(RingError::TooManyParties)
    );
    // With seven parties the threshold is looked at.
    assert_eq!(
        r.shamir_secret_sharing(&secret, 7, 0, &mut rng).err(),
        Some(RingError::ThresholdOutOfRange)
    );
    assert_eq!(
        r.shamir_secret_sharing(&secret, 7, 8, &mut rng).err(),
        Some(RingError::ThresholdOutOfRange)
    );
    assert_eq!(
        r.shamir_secret_sharing_non_random(&nine, 7).err(),
        Some(RingError::ThresholdOutOfRange)
    );
}

#[test]
fn share_draws_nothing_where_it_fails() {
    let r = ring(4, &[1, 1, 0, 1]);
    let secret = elem(&r, &[3, 2, 1]);
    let mut failed = StdRng::seed_from_u64(21);
    assert!(r.shamir_secret_sharing(&secret, 8, 2, &mut failed).is_err());
    assert!(r.shamir_secret_sharing(&secret, 7, 0, &mut failed).is_err());
    let mut fresh = StdRng::seed_from_u64(21);
    assert_eq!(r.random_ring_element(&mut failed), r.random_ring_element(&mut fresh));
}

#[test]
fn reconstruct_rejects_no_shares() {
    let r = ring(7, &[1, 0, 1]);
    assert_eq!(r.reconstruct_secret(&vec![]).err(), Some(RingError::InsufficientShares));
}

#[test]
fn reconstruct_with_threshold_rejects_too_few_shares() {
    let r = ring(7, &[1, 0, 1]);
    let c = vec![elem(&r, &[3, 2]), elem(&r, &[1, 1]), elem(&r, &[0, 5])];
    let shares = r.shamir_secret_sharing_non_random(&c, 4).unwrap();
    assert_eq!(
        r.reconstruct_with_threshold(&pick(&shares, &[0, 1]), 3).err(),
        Some(RingError::InsufficientShares)
    );
    assert_eq!(r.reconstruct_with_threshold(&pick(&shares, &[0, 1, 3]), 3).unwrap(), c[0]);
}

#[test]
fn reconstruct_rejects_a_duplicate_point() {
    let r = ring(7, &[1, 0, 1]);
    let c = vec![elem(&r, &[3, 2]), elem(&r, &[1, 1])];
    let shares = r.shamir_secret_sharing_non_random(&c, 4).unwrap();
    assert_eq!(
        r.reconstruct_secret(&pick(&shares, &[0, 2, 0])).err(),
        Some(RingError::DuplicateEvaluationPoint)
    );
}

#[test]
fn reconstruct_rejects_points_whose_difference_is_no_unit() {
    // Over Z/4Z the points 1 and 3 differ by 2.
    let r = ring(4, &[1, 1, 1]);
    let shares = vec![(elem(&r, &[1]), elem(&r, &[2])), (elem(&r, &[3]), elem(&r, &[0, 1]))];
    assert_eq!(
        r.reconstruct_secret(&shares).err(),
        Some(RingError::ReconstructionDenominatorNotInvertible)
    );
}

#[test]
fn reconstruct_from_one_share_gives_its_value() {
    let r = ring(7, &[1, 0, 1]);
    let shares = vec![(elem(&r, &[1]), elem(&r, &[2, 5]))];
    assert_eq!(r.reconstruct_secret(&shares).unwrap().coefficients(), ints(&[2, 5]));
}

#[test]
fn reconstruct_uses_the_negated_points() {
    // P(X) = 1 + X over Z/7Z[x]/(x^2 + 1): P(1) = 2, P(2) = 3.
    // L1(0) = -2 / (1 - 2) = 2, L2(0) = -1 / (2 - 1) = -1, and
    // 2 * 2 - 3 = 1. Without the negation the result would be -1.
    let r = ring(7, &[1, 0, 1]);
    let shares = vec![(elem(&r, &[1]), elem(&r, &[2])), (elem(&r, &[2]), elem(&r, &[3]))];
    assert_eq!(r.reconstruct_secret(&shares).unwrap().coefficients(), ints(&[1, 0]));
}
