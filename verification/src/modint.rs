//! Arithmetic in `Z/mZ`: sums, differences and products reduced into
//! `[0, m)`, and the inverse of a unit by the extended Euclidean algorithm.

use crate::integer::Int;
use vstd::arithmetic::div_mod::*;
use vstd::arithmetic::mul::*;
use vstd::prelude::*;

verus! {

/// `x` is the inverse of `a` modulo `m`, as a number in `[0, m)`.
pub open spec fn is_inverse(a: int, x: int, m: int) -> bool {
    0 <= x < m && (a * x) % m == 1
}

/// `a` has an inverse modulo `m`.
pub open spec fn is_unit(a: int, m: int) -> bool {
    exists|x: int| is_inverse(a, x, m)
}

/// The inverse of the unit `a` modulo `m`.
pub open spec fn inverse_of(a: int, m: int) -> int
    recommends
        is_unit(a, m),
{
    choose|x: int| is_inverse(a, x, m)
}

/// `d` divides `n`.
pub open spec fn divides(d: int, n: int) -> bool {
    d > 0 && n % d == 0
}

/// Congruent numbers have congruent sums.
pub proof fn lemma_cong_add(a: int, b: int, c: int, d: int, m: int)
    requires
        m > 0,
        a % m == b % m,
        c % m == d % m,
    ensures
        (a + c) % m == (b + d) % m,
{
    lemma_add_mod_noop(a, c, m);
    lemma_add_mod_noop(b, d, m);
}

/// Congruent numbers have congruent differences.
pub proof fn lemma_cong_sub(a: int, b: int, c: int, d: int, m: int)
    requires
        m > 0,
        a % m == b % m,
        c % m == d % m,
    ensures
        (a - c) % m == (b - d) % m,
{
    lemma_sub_mod_noop(a, c, m);
    lemma_sub_mod_noop(b, d, m);
}

/// Congruent numbers have congruent products.
pub proof fn lemma_cong_mul(a: int, b: int, c: int, d: int, m: int)
    requires
        m > 0,
        a % m == b % m,
        c % m == d % m,
    ensures
        (a * c) % m == (b * d) % m,
{
    lemma_mul_mod_noop(a, c, m);
    lemma_mul_mod_noop(b, d, m);
}

/// A multiple of `m` plus a multiple of a multiple of `m` is one.
pub proof fn lemma_multiple_combination(x: int, y: int, q: int, m: int)
    requires
        m > 0,
        x % m == 0,
        y % m == 0,
    ensures
        (x + q * y) % m == 0,
        (x - q * y) % m == 0,
{
    lemma_mul_mod_noop_right(q, y, m);
    assert(q * 0 == 0);
    assert((q * y) % m == 0) by {
        lemma_small_mod(0, m as nat);
    }
    lemma_cong_add(x, 0, q * y, 0, m);
    lemma_cong_sub(x, 0, q * y, 0, m);
}

/// A number has at most one inverse in `[0, m)`.
pub proof fn lemma_inverse_unique(a: int, x: int, y: int, m: int)
    requires
        is_inverse(a, x, m),
        is_inverse(a, y, m),
    ensures
        x == y,
{
    assert(m >= 2) by {
        if m == 1 {
            assert((a * x) % 1 == 0);
        }
    }
    // x == x * (a * y) == (x * a) * y == y, modulo m.
    lemma_mul_mod_noop_right(x, a * y, m);
    assert(x * 1 == x);
    lemma_small_mod(x as nat, m as nat);
    assert((x * (a * y)) % m == x);
    lemma_mul_is_commutative(x, a);
    lemma_mul_mod_noop_left(x * a, y, m);
    assert(1 * y == y);
    lemma_small_mod(y as nat, m as nat);
    assert(((x * a) * y) % m == y);
    lemma_mul_is_associative(x, a, y);
}

/// The inverse that the definition picks is the only one.
pub proof fn lemma_inverse_of(a: int, x: int, m: int)
    requires
        is_inverse(a, x, m),
    ensures
        is_unit(a, m),
        inverse_of(a, m) == x,
{
    lemma_inverse_unique(a, x, inverse_of(a, m), m);
}

/// Units stay units, with the same inverse, when a multiple of `m` is added
/// to them.
pub proof fn lemma_unit_of_class(a: int, b: int, m: int)
    requires
        m > 0,
        a % m == b % m,
    ensures
        is_unit(a, m) == is_unit(b, m),
        forall|x: int| is_inverse(a, x, m) == is_inverse(b, x, m),
{
    assert forall|x: int| is_inverse(a, x, m) == is_inverse(b, x, m) by {
        lemma_cong_mul(a, b, x, x, m);
    }
}

/// A number that shares a divisor above one with `m` is no unit.
proof fn lemma_common_divisor_no_unit(a: int, m: int, d: int)
    requires
        m >= 2,
        d > 1,
        m % d == 0,
        a % d == 0,
    ensures
        !is_unit(a, m),
{
    if is_unit(a, m) {
        let x = inverse_of(a, m);
        // a * x == m * k + 1, and d divides both a * x and m * k.
        let k = (a * x) / m;
        lemma_fundamental_div_mod(a * x, m);
        assert(a * x == m * k + 1);
        lemma_mul_is_commutative(a, x);
        lemma_multiple_combination(0, a, x, d);
        assert((a * x) % d == 0);
        lemma_mul_is_commutative(m, k);
        lemma_multiple_combination(0, m, k, d);
        assert((m * k) % d == 0);
        lemma_cong_sub(a * x, 0, m * k, 0, d);
        assert(a * x - m * k == 1);
        lemma_small_mod(1, d as nat);
        lemma_small_mod(0, d as nat);
        assert(false);
    }
}

/// `(a + b) mod m`.
pub fn add_mod(a: &Int, b: &Int, m: &Int) -> (r: Int)
    requires
        m@ > 0,
    ensures
        r@ == (a@ + b@) % m@,
{
    a.plus(b).modulo(m)
}

/// `(a - b) mod m`.
pub fn sub_mod(a: &Int, b: &Int, m: &Int) -> (r: Int)
    requires
        m@ > 0,
    ensures
        r@ == (a@ - b@) % m@,
{
    a.minus(b).modulo(m)
}

/// `(a * b) mod m`.
pub fn mul_mod(a: &Int, b: &Int, m: &Int) -> (r: Int)
    requires
        m@ > 0,
    ensures
        r@ == (a@ * b@) % m@,
{
    a.times(b).modulo(m)
}

/// `(-a) mod m`.
pub fn neg_mod(a: &Int, m: &Int) -> (r: Int)
    requires
        m@ > 0,
    ensures
        r@ == (-a@) % m@,
{
    let z = Int::zero();
    z.minus(a).modulo(m)
}

/// The inverse of `divisor` modulo `modulus` by the extended Euclidean
/// algorithm, or `None` where `divisor` is no unit.
pub fn mod_inverse(divisor: Int, modulus: &Int) -> (r: Option<Int>)
    requires
        modulus@ >= 2,
    ensures
        r is Some <==> is_unit(divisor@, modulus@),
        r matches Some(x) ==> is_inverse(divisor@, x@, modulus@) && x@ == inverse_of(
            divisor@,
            modulus@,
        ),
{
    let ghost m = modulus@;
    let a0 = divisor.modulo(modulus);
    let ghost a = a0@;
    let mut t = Int::zero();
    let mut new_t = Int::from_i64(1);
    let mut r = modulus.clone();
    let mut new_r = a0;
    proof {
        lemma_mod_self_0(m);
        assert((0 * a - m) % m == 0) by {
            assert(0 * a == 0);
            lemma_cong_sub(0, 0, m, 0, m);
            lemma_small_mod(0, m as nat);
        }
        assert(1 * a - a == 0);
        lemma_small_mod(0, m as nat);
    }
    while !new_r.is_zero()
        invariant
            m == modulus@,
            m >= 2,
            0 <= new_r@ < r@,
            (t@ * a - r@) % m == 0,
            (new_t@ * a - new_r@) % m == 0,
            forall|d: int|
                #![trigger divides(d, m)]
                divides(d, r@) && divides(d, new_r@) ==> divides(d, m) && divides(d, a),
        decreases new_r@,
    {
        let q = r.div_floor(&new_r);
        let next_t = t.minus(&q.times(&new_t));
        let next_r = r.minus(&q.times(&new_r));
        proof {
            let qv = q@;
            lemma_fundamental_div_mod(r@, new_r@);
            lemma_mul_is_commutative(new_r@, qv);
            assert(next_r@ == r@ % new_r@);
            lemma_mod_pos_bound(r@, new_r@);
            // The congruence for the new pair.
            lemma_multiple_combination(t@ * a - r@, new_t@ * a - new_r@, qv, m);
            assert((t@ - qv * new_t@) * a - (r@ - qv * new_r@) == (t@ * a - r@) - qv * (new_t@ * a
                - new_r@)) by (nonlinear_arith);
            // A common divisor of the new pair divides the old pair.
            assert forall|d: int|
                #![trigger divides(d, m)]
                divides(d, new_r@) && divides(d, next_r@) implies divides(d, m) && divides(
                d,
                a,
            ) by {
                lemma_multiple_combination(next_r@, new_r@, qv, d);
                assert(next_r@ + qv * new_r@ == r@);
            }
        }
        t = new_t;
        new_t = next_t;
        r = new_r;
        new_r = next_r;
    }
    let one = Int::from_i64(1);
    if one.lt(&r) {
        proof {
            lemma_mod_self_0(r@);
            lemma_small_mod(0, r@ as nat);
            assert(divides(r@, r@) && divides(r@, new_r@));
            assert(divides(r@, m) && divides(r@, a));
            lemma_common_divisor_no_unit(a, m, r@);
            lemma_mod_twice(divisor@, m);
            lemma_unit_of_class(a, divisor@, m);
        }
        None
    } else {
        let x = t.modulo(modulus);
        proof {
            assert(r@ == 1);
            lemma_mod_equivalence(t@ * a, 1, m);
            lemma_small_mod(1, m as nat);
            assert((t@ * a) % m == 1);
            lemma_mul_mod_noop_left(t@, a, m);
            lemma_mul_is_commutative(x@, a);
            assert(is_inverse(a, x@, m));
            lemma_mod_twice(divisor@, m);
            lemma_unit_of_class(a, divisor@, m);
            lemma_inverse_of(divisor@, x@, m);
        }
        Some(x)
    }
}

} // verus!
