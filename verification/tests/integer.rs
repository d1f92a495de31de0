use rand::rngs::StdRng;
use rand::SeedableRng;
use sss_ring::modint::{add_mod, mul_mod, neg_mod, sub_mod};
use sss_ring::Int;

#[test]
fn from_i64_spells_twos_complement() {
    assert_eq!(Int::from_i64(0).to_signed_bytes_le(), vec![0]);
    assert_eq!(Int::from_i64(1).to_signed_bytes_le(), vec![1]);
    assert_eq!(Int::from_i64(127).to_signed_bytes_le(), vec![127]);
    assert_eq!(Int::from_i64(128).to_signed_bytes_le(), vec![128, 0]);
    assert_eq!(Int::from_i64(255).to_signed_bytes_le(), vec![255, 0]);
    assert_eq!(Int::from_i64(256).to_signed_bytes_le(), vec![0, 1]);
    assert_eq!(Int::from_i64(-1).to_signed_bytes_le(), vec![255]);
    assert_eq!(Int::from_i64(-128).to_signed_bytes_le(), vec![128]);
    assert_eq!(Int::from_i64(-129).to_signed_bytes_le(), vec![127, 255]);
    assert_eq!(Int::from_i64(-1125).to_signed_bytes_le(), vec![155, 251]);
}

#[test]
fn from_u64_keeps_large_values_positive() {
    let top = Int::from_u64(u64::MAX);
    assert!(!top.is_negative());
    assert_eq!(top.to_signed_bytes_le(), vec![255, 255, 255, 255, 255, 255, 255, 255, 0]);
    assert_eq!(Int::from_u64(7), Int::from_i64(7));
}

#[test]
fn bytes_that_spell_the_same_number_are_equal() {
    assert_eq!(Int::from_signed_bytes_le(vec![]), Int::zero());
    assert_eq!(Int::from_signed_bytes_le(vec![0, 0, 0]), Int::zero());
    assert_eq!(Int::from_signed_bytes_le(vec![5, 0]), Int::from_i64(5));
    assert_eq!(Int::from_signed_bytes_le(vec![255, 255]), Int::from_i64(-1));
    assert_ne!(Int::from_signed_bytes_le(vec![255, 0]), Int::from_i64(-1));
}

#[test]
fn bytes_are_read_as_twos_complement() {
    assert_eq!(Int::from_signed_bytes_le(vec![0x80]), Int::from_i64(-128));
    assert_eq!(Int::from_signed_bytes_le(vec![0x00, 0x80]), Int::from_i64(-32768));
    assert_eq!(Int::from_signed_bytes_le(vec![0xff, 0x7f]), Int::from_i64(32767));
    assert_eq!(Int::from_signed_bytes_le(vec![0x80, 0x00]), Int::from_i64(128));
    assert_eq!(Int::from_signed_bytes_le(vec![0x80, 0xff, 0xff]), Int::from_i64(-128));
    // 5 + (-3), both spelled with more bytes than they need.
    let five = Int::from_signed_bytes_le(vec![5, 0, 0]);
    let minus_three = Int::from_signed_bytes_le(vec![0xfd, 0xff, 0xff, 0xff]);
    assert_eq!(five.plus(&minus_three), Int::from_i64(2));
    assert_eq!(five.times(&minus_three).to_signed_bytes_le(), vec![0xf1]);
    assert!(minus_three.lt(&five));
    assert!(minus_three.is_negative());
    assert_eq!(minus_three.modulo(&five), Int::from_i64(2));
}

#[test]
fn zero_is_zero() {
    assert!(Int::zero().is_zero());
    assert!(Int::from_i64(0).is_zero());
    assert!(!Int::from_i64(1).is_zero());
    assert!(!Int::from_i64(-1).is_zero());
}

#[test]
fn comparison_follows_the_values() {
    assert!(Int::from_i64(2).lt(&Int::from_i64(3)));
    assert!(!Int::from_i64(3).lt(&Int::from_i64(3)));
    assert!(!Int::from_i64(4).lt(&Int::from_i64(3)));
    assert!(Int::from_i64(-300).lt(&Int::from_i64(-299)));
    assert!(Int::from_i64(-1).is_negative());
    assert!(!Int::from_i64(0).is_negative());
    assert!(!Int::from_i64(1).is_negative());
}

#[test]
fn sums_differences_and_products() {
    assert_eq!(Int::from_i64(20).plus(&Int::from_i64(22)), Int::from_i64(42));
    assert_eq!(Int::from_i64(20).minus(&Int::from_i64(22)), Int::from_i64(-2));
    assert_eq!(Int::from_i64(-6).times(&Int::from_i64(7)), Int::from_i64(-42));
    assert_eq!(Int::from_i64(5).plus(&Int::zero()), Int::from_i64(5));
    assert_eq!(Int::from_i64(5).times(&Int::from_i64(1)), Int::from_i64(5));
}

#[test]
fn arithmetic_goes_beyond_machine_words() {
    let big = Int::from_u64(u64::MAX);
    let square = big.times(&big);
    // (2^64 - 1)^2 = 2^128 - 2^65 + 1
    let two_64 = big.plus(&Int::from_i64(1));
    let two_128 = two_64.times(&two_64);
    let two_65 = two_64.plus(&two_64);
    assert_eq!(square, two_128.minus(&two_65).plus(&Int::from_i64(1)));
    assert_eq!(square.div_floor(&big), big);
    assert_eq!(square.modulo(&two_64), Int::from_i64(1));
}

#[test]
fn division_of_numbers_that_are_not_negative() {
    assert_eq!(Int::from_i64(17).div_floor(&Int::from_i64(5)), Int::from_i64(3));
    assert_eq!(Int::from_i64(15).div_floor(&Int::from_i64(5)), Int::from_i64(3));
    assert_eq!(Int::from_i64(4).div_floor(&Int::from_i64(5)), Int::from_i64(0));
    assert_eq!(Int::from_i64(0).div_floor(&Int::from_i64(5)), Int::from_i64(0));
}

#[test]
fn division_rounds_down_for_every_sign() {
    assert_eq!(Int::from_i64(-17).div_floor(&Int::from_i64(5)), Int::from_i64(-4));
    assert_eq!(Int::from_i64(-15).div_floor(&Int::from_i64(5)), Int::from_i64(-3));
    assert_eq!(Int::from_i64(-1).div_floor(&Int::from_i64(5)), Int::from_i64(-1));
    assert_eq!(Int::from_i64(17).div_floor(&Int::from_i64(-5)), Int::from_i64(-4));
    assert_eq!(Int::from_i64(15).div_floor(&Int::from_i64(-5)), Int::from_i64(-3));
    assert_eq!(Int::from_i64(-17).div_floor(&Int::from_i64(-5)), Int::from_i64(3));
    assert_eq!(Int::from_i64(-15).div_floor(&Int::from_i64(-5)), Int::from_i64(3));
    assert_eq!(Int::from_i64(0).div_floor(&Int::from_i64(-5)), Int::from_i64(0));
    // quotient * divisor + remainder in [0, divisor) gives the dividend.
    let a = Int::from_i64(-1_000_000_007);
    let b = Int::from_i64(12_345);
    let q = a.div_floor(&b);
    assert_eq!(q.times(&b).plus(&a.modulo(&b)), a);
}

#[test]
fn modulo_gives_the_representative_in_range() {
    let seven = Int::from_i64(7);
    assert_eq!(Int::from_i64(17).modulo(&seven), Int::from_i64(3));
    assert_eq!(Int::from_i64(14).modulo(&seven), Int::from_i64(0));
    assert_eq!(Int::from_i64(3).modulo(&seven), Int::from_i64(3));
    assert_eq!(Int::from_i64(-1).modulo(&seven), Int::from_i64(6));
    assert_eq!(Int::from_i64(-7).modulo(&seven), Int::from_i64(0));
    assert_eq!(Int::from_i64(-17).modulo(&seven), Int::from_i64(4));
}

#[test]
fn modular_operations() {
    let seven = Int::from_i64(7);
    assert_eq!(add_mod(&Int::from_i64(5), &Int::from_i64(4), &seven), Int::from_i64(2));
    assert_eq!(sub_mod(&Int::from_i64(2), &Int::from_i64(5), &seven), Int::from_i64(4));
    assert_eq!(mul_mod(&Int::from_i64(5), &Int::from_i64(4), &seven), Int::from_i64(6));
    assert_eq!(neg_mod(&Int::from_i64(3), &seven), Int::from_i64(4));
    assert_eq!(neg_mod(&Int::from_i64(0), &seven), Int::from_i64(0));
}

#[test]
fn clone_keeps_the_value() {
    let a = Int::from_i64(-123456789);
    assert_eq!(a.clone(), a);
}

#[test]
fn random_numbers_lie_below_the_bound() {
    let mut rng = StdRng::seed_from_u64(11);
    let bound = Int::from_i64(5);
    let mut seen = [false; 5];
    let mut i = 0;
    while i < 400 {
        let r = Int::random_below(&mut rng, &bound);
        assert!(!r.is_negative());
        assert!(r.lt(&bound));
        let mut k: i64 = 0;
        while k < 5 {
            if r == Int::from_i64(k) {
                seen[k as usize] = true;
            }
            k += 1;
        }
        i += 1;
    }
    assert!(seen.iter().all(|s| *s));
}

#[test]
fn random_numbers_below_one_are_zero() {
    let mut rng = StdRng::seed_from_u64(3);
    let one = Int::from_i64(1);
    assert!(Int::random_below(&mut rng, &one).is_zero());
}
