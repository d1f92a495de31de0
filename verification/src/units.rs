//! Which elements of `R = (Z/mZ)[x] / f(x)` the ring's inversion inverts,
//! where `f` is irreducible modulo the least prime factor `p` of `m`: every
//! element that is not zero modulo `p`, unless the Euclidean algorithm gets
//! stuck on a remainder that cannot be divided by. Over a field it never
//! gets stuck. The differences of the points of the exceptional set are
//! such elements.

use crate::division::{
    has_unit_lead, lemma_division, lemma_prod_cong_left, lemma_prod_cong_right, poly_divrem,
};
use crate::error::RingError;
use crate::euclid::{euclid_loop, lemma_unit_modulus, next_cofactor, poly_euclid};
use crate::exceptional::{digits, is_least_factor};
use crate::modint::{divides, inverse_of, is_inverse, is_unit, lemma_cong_add, lemma_unit_of_class};
use crate::poly_spec::{
    coef, congruent, is_canonical, is_trimmed, lemma_normal, lemma_normal_of_normal,
    lemma_poly_mul_coef, lemma_prod_associates, lemma_reduce_of_canonical, lemma_row_sum_add_left,
    lemma_row_sum_beyond, lemma_trim, normal, poly_add, poly_mul, prod_coef, reduce, row_sum,
};
use crate::ring::GaloisRing;
use crate::sharing::{points, share_values};
use vstd::arithmetic::div_mod::{
    lemma_div_denominator, lemma_div_pos_is_pos, lemma_fundamental_div_mod, lemma_mod_bound,
    lemma_mod_mod, lemma_mod_multiples_vanish, lemma_mod_twice, lemma_mul_mod_noop_left,
    lemma_mul_mod_noop_right, lemma_small_mod,
};
use vstd::arithmetic::power::{lemma_pow0, lemma_pow1, lemma_pow_adds, lemma_pow_positive, pow};
use vstd::prelude::*;

verus! {

/// `a = q * g` over `Z/mZ`.
pub open spec fn is_multiple(a: Seq<int>, q: Seq<int>, g: Seq<int>, m: int) -> bool {
    forall|k: int| #![trigger coef(a, k)] coef(a, k) % m == prod_coef(q, g, k) % m
}

/// `g` divides `a` over `Z/mZ`.
pub open spec fn poly_divides(g: Seq<int>, a: Seq<int>, m: int) -> bool {
    exists|q: Seq<int>| is_multiple(a, q, g, m)
}

/// `f` is irreducible modulo `p`: it has degree at least one, and in any
/// way to write it as a product of two polynomials modulo `p`, one of the
/// two is a constant.
pub open spec fn irreducible_mod(f: Seq<int>, p: int) -> bool {
    &&& normal(f, p).len() >= 2
    &&& forall|a: Seq<int>, b: Seq<int>| #[trigger]
        is_multiple(f, a, b, p) ==> normal(a, p).len() == 1 || normal(b, p).len() == 1
}

/// Some coefficient of `e` is not divisible by `p`.
pub open spec fn nonzero_mod(e: Seq<int>, p: int) -> bool {
    exists|t: int| 0 <= t < e.len() && #[trigger] (e[t] % p) != 0
}

/// Numbers that are congruent modulo `m` are congruent modulo a factor of
/// `m`.
pub proof fn lemma_cong_mod_factor(x: int, y: int, m: int, p: int)
    requires
        m > 0,
        divides(p, m),
        x % m == y % m,
    ensures
        x % p == y % p,
{
    let b = m / p;
    lemma_fundamental_div_mod(m, p);
    assert(m == p * b);
    assert(b > 0) by {
        if b <= 0 {
            assert(p * b <= 0) by (nonlinear_arith)
                requires
                    p > 0,
                    b <= 0,
            ;
        }
    }
    lemma_mod_mod(x, p, b);
    lemma_mod_mod(y, p, b);
}

/// A unit modulo `m` is not divisible by a factor of `m` above one.
pub proof fn lemma_unit_nonzero_mod_factor(c: int, m: int, p: int)
    requires
        is_unit(c, m),
        p >= 2,
        divides(p, m),
    ensures
        c % p != 0,
{
    lemma_unit_modulus(c, m);
    let x = inverse_of(c, m);
    lemma_small_mod(1, m as nat);
    lemma_cong_mod_factor(c * x, 1, m, p);
    lemma_small_mod(1, p as nat);
    if c % p == 0 {
        lemma_mul_mod_noop_left(c, x, p);
        assert(0 * x == 0);
        lemma_small_mod(0, p as nat);
    }
}

/// Modulo a prime, every number from one to below the prime is a unit.
proof fn lemma_prime_unit_small(c: int, p: int)
    requires
        is_least_factor(p, p),
        0 < c < p,
    ensures
        is_unit(c, p),
    decreases c,
{
    if c == 1 {
        assert(1 * 1 == 1);
        lemma_small_mod(1, p as nat);
        assert(is_inverse(1, 1, p));
    } else {
        let r = p % c;
        let q = p / c;
        lemma_fundamental_div_mod(p, c);
        lemma_mod_bound(p, c);
        assert(!divides(c, p));
        assert(0 < r < c);
        lemma_prime_unit_small(r, p);
        let y = inverse_of(r, p);
        let x = (-q * y) % p;
        lemma_mod_bound(-q * y, p);
        // c * x = c * (-q * y) = (r - p) * y = r * y - p * y, modulo p
        lemma_mul_mod_noop_right(c, -q * y, p);
        assert(c * (-q * y) == p * (-y) + r * y) by (nonlinear_arith)
            requires
                p == c * q + r,
        ;
        lemma_mod_multiples_vanish(-y, r * y, p);
        assert(is_inverse(c, x, p));
    }
}

/// Modulo a prime, every number that the prime does not divide is a unit.
pub proof fn lemma_prime_units(c: int, p: int)
    requires
        is_least_factor(p, p),
        c % p != 0,
    ensures
        is_unit(c, p),
{
    lemma_mod_bound(c, p);
    lemma_prime_unit_small(c % p, p);
    lemma_mod_twice(c, p);
    lemma_unit_of_class(c % p, c, p);
}

/// Two numbers below `p^d` with the same `d` digits in base `p` are the
/// same number.
pub proof fn lemma_digits_injective(i: int, j: int, p: int, d: nat)
    requires
        p >= 2,
        0 <= i < pow(p, d),
        0 <= j < pow(p, d),
        digits(i, p, d) == digits(j, p, d),
    ensures
        i == j,
    decreases d,
{
    if d == 0 {
        lemma_pow0(p);
    } else {
        let e = (d - 1) as nat;
        let a = digits(i, p, d);
        let b = digits(j, p, d);
        lemma_pow0(p);
        assert(a[0] == i % p && b[0] == j % p);
        lemma_pow_positive(p, e);
        assert(pow(p, d) == p * pow(p, e)) by {
            lemma_pow_adds(p, 1, e);
            lemma_pow1(p);
        }
        let i2 = i / p;
        let j2 = j / p;
        lemma_fundamental_div_mod(i, p);
        lemma_fundamental_div_mod(j, p);
        lemma_div_pos_is_pos(i, p);
        lemma_div_pos_is_pos(j, p);
        lemma_mod_bound(i, p);
        lemma_mod_bound(j, p);
        assert(i2 < pow(p, e)) by (nonlinear_arith)
            requires
                i == p * i2 + i % p,
                0 <= i % p,
                i < p * pow(p, e),
                p >= 2,
        ;
        assert(j2 < pow(p, e)) by (nonlinear_arith)
            requires
                j == p * j2 + j % p,
                0 <= j % p,
                j < p * pow(p, e),
                p >= 2,
        ;
        assert(digits(i2, p, e) =~= digits(j2, p, e)) by {
            assert forall|t: int| 0 <= t < e implies digits(i2, p, e)[t] == digits(j2, p, e)[t] by {
                lemma_pow_positive(p, t as nat);
                lemma_div_denominator(i, p, pow(p, t as nat));
                lemma_div_denominator(j, p, pow(p, t as nat));
                assert(pow(p, (t + 1) as nat) == p * pow(p, t as nat)) by {
                    lemma_pow_adds(p, 1, t as nat);
                    lemma_pow1(p);
                }
                assert(a[t + 1] == b[t + 1]);
            }
        }
        lemma_digits_injective(i2, j2, p, e);
    }
}

/// The Euclidean algorithm ends with a polynomial that divides both of its
/// arguments, is at most as long as the second, and has a unit as its
/// leading coefficient.
proof fn lemma_euclid_chain(
    r_prev: Seq<int>,
    r_cur: Seq<int>,
    s_prev: Seq<int>,
    s_cur: Seq<int>,
    t_prev: Seq<int>,
    t_cur: Seq<int>,
    m: int,
)
    requires
        m >= 2,
        is_canonical(r_prev, m) && is_trimmed(r_prev),
        is_canonical(r_cur, m) && is_trimmed(r_cur),
        r_prev.len() >= 1,
        r_cur.len() == 0 ==> is_unit(r_prev.last(), m),
    ensures
        euclid_loop(r_prev, r_cur, s_prev, s_cur, t_prev, t_cur, m) matches Some((g, u, v)) ==> {
            &&& g.len() >= 1
            &&& is_unit(g.last(), m)
            &&& r_cur.len() > 0 ==> g.len() <= r_cur.len()
            &&& r_cur.len() == 0 ==> g == r_prev
            &&& poly_divides(g, r_prev, m)
            &&& poly_divides(g, r_cur, m)
        },
    decreases r_cur.len(),
{
    if r_cur.len() == 0 {
        let one = seq![1int];
        let none = Seq::<int>::empty();
        assert(is_multiple(r_prev, one, r_prev, m)) by {
            assert forall|k: int|
                #![trigger coef(r_prev, k)]
                coef(r_prev, k) % m == prod_coef(one, r_prev, k) % m by {
                assert(row_sum(one, r_prev, k, 0) == 0);
                assert(1 * coef(r_prev, k) == coef(r_prev, k));
            }
        }
        assert(is_multiple(r_cur, none, r_prev, m)) by {
            assert forall|k: int| #![trigger coef(r_cur, k)] coef(r_cur, k) % m == prod_coef(
                none,
                r_prev,
                k,
            ) % m by {
                assert(prod_coef(none, r_prev, k) == 0);
            }
        }
    } else if has_unit_lead(r_cur, m) {
        let (q, r_next) = poly_divrem(r_prev, r_cur, m);
        lemma_division(r_prev, r_cur, m);
        lemma_normal_of_normal(r_cur, m);
        let s_next = next_cofactor(s_prev, s_cur, q, m);
        let t_next = next_cofactor(t_prev, t_cur, q, m);
        lemma_euclid_chain(r_cur, r_next, s_cur, s_next, t_cur, t_next, m);
        if let Some((g, u, v)) = euclid_loop(r_prev, r_cur, s_prev, s_cur, t_prev, t_cur, m) {
            let a1 = choose|a: Seq<int>| is_multiple(r_cur, a, g, m);
            let a2 = choose|a: Seq<int>| is_multiple(r_next, a, g, m);
            let qa = poly_mul(q, a1);
            let a0 = poly_add(qa, a2);
            let ag = poly_mul(a1, g);
            // r_prev = q * r_cur + r_next = q * (a1 * g) + a2 * g = (q * a1 + a2) * g
            assert forall|k: int|
                #![trigger coef(r_prev, k)]
                coef(r_prev, k) % m == prod_coef(a0, g, k) % m by {
                let n = a0.len() as int;
                assert forall|i: int| 0 <= i < n implies #[trigger] coef(a0, i) == coef(qa, i)
                    + coef(a2, i) by {}
                lemma_row_sum_add_left(a0, qa, a2, g, k, n);
                lemma_row_sum_beyond(qa, g, k, n);
                lemma_row_sum_beyond(a2, g, k, n);
                lemma_prod_associates(q, a1, g, k);
                assert(congruent(r_cur, ag, m)) by {
                    assert forall|j: int|
                        #![trigger coef(r_cur, j)]
                        #![trigger coef(ag, j)]
                        coef(r_cur, j) % m == coef(ag, j) % m by {
                        lemma_poly_mul_coef(a1, g, j);
                    }
                }
                lemma_prod_cong_right(q, r_cur, ag, k, m);
                assert(coef(r_prev, k) % m == (prod_coef(q, r_cur, k) + coef(r_next, k)) % m);
                assert(coef(r_next, k) % m == prod_coef(a2, g, k) % m);
                lemma_cong_add(
                    prod_coef(q, r_cur, k),
                    prod_coef(q, ag, k),
                    coef(r_next, k),
                    prod_coef(a2, g, k),
                    m,
                );
            }
            assert(is_multiple(r_prev, a0, g, m));
        }
    }
}

/// Over a field the Euclidean algorithm never gets stuck.
proof fn lemma_euclid_over_field(
    r_prev: Seq<int>,
    r_cur: Seq<int>,
    s_prev: Seq<int>,
    s_cur: Seq<int>,
    t_prev: Seq<int>,
    t_cur: Seq<int>,
    m: int,
)
    requires
        is_least_factor(m, m),
        is_canonical(r_cur, m) && is_trimmed(r_cur),
    ensures
        euclid_loop(r_prev, r_cur, s_prev, s_cur, t_prev, t_cur, m) is Some,
    decreases r_cur.len(),
{
    if r_cur.len() > 0 {
        lemma_normal_of_normal(r_cur, m);
        let c = r_cur.last();
        assert(0 <= c < m);
        lemma_small_mod(c as nat, m as nat);
        lemma_prime_units(c, m);
        let (q, r_next) = poly_divrem(r_prev, r_cur, m);
        lemma_division(r_prev, r_cur, m);
        lemma_euclid_over_field(
            r_cur,
            r_next,
            s_cur,
            next_cofactor(s_prev, s_cur, q, m),
            t_cur,
            next_cofactor(t_prev, t_cur, q, m),
            m,
        );
    }
}

/// A sequence whose last coefficient is not divisible by `p` keeps its
/// length when it is taken modulo `p`.
proof fn lemma_normal_keeps_length(g: Seq<int>, p: int)
    requires
        p > 0,
        g.len() >= 1,
        g.last() % p != 0,
    ensures
        normal(g, p).len() == g.len(),
{
    let r = reduce(g, p);
    assert(r.last() == g.last() % p);
}

/// A canonical sequence with a coefficient that is not zero has a normal
/// form that is not empty.
proof fn lemma_normal_not_empty(e: Seq<int>, m: int, t: int)
    requires
        m > 0,
        is_canonical(e, m),
        0 <= t < e.len(),
        e[t] != 0,
    ensures
        normal(e, m).len() >= 1,
{
    lemma_reduce_of_canonical(e, m);
    lemma_trim(e);
}

impl GaloisRing {
    /// The defining polynomial is irreducible modulo the least prime factor
    /// of the modulus.
    pub open spec fn f_is_irreducible(&self) -> bool {
        irreducible_mod(self.f(), self.residue_prime())
    }

    /// The modulus is a prime, so that the ring is a field where its
    /// defining polynomial is irreducible.
    pub open spec fn prime_modulus(&self) -> bool {
        self.residue_prime() == self.m()
    }

    /// Where the defining polynomial is irreducible modulo `p`, an element
    /// that is not zero modulo `p` is inverted unless the Euclidean
    /// algorithm gets stuck: the algorithm never ends with a polynomial
    /// that is no constant unit.
    pub proof fn lemma_inverse_of_residue_unit(&self, e: Seq<int>)
        requires
            self.wf(),
            self.f_is_irreducible(),
            self.contains(e),
            nonzero_mod(e, self.residue_prime()),
        ensures
            poly_euclid(self.f(), e, self.m()) is Some ==> self.ring_inverse(e) is Ok,
            self.ring_inverse(e) is Err ==> self.ring_inverse(e) == Err::<Seq<int>, RingError>(
                RingError::NotInvertible,
            ),
            self.prime_modulus() ==> self.ring_inverse(e) is Ok,
    {
        let m = self.m();
        let f = self.f();
        let p = self.residue_prime();
        let one = seq![1int];
        let none = Seq::<int>::empty();
        self.lemma_residue_prime();
        self.lemma_f_divides();
        let en = normal(e, m);
        lemma_normal(e, m);
        let t = choose|t: int| 0 <= t < e.len() && #[trigger] (e[t] % p) != 0;
        assert(e[t] != 0) by {
            if e[t] == 0 {
                lemma_small_mod(0, p as nat);
            }
        }
        lemma_normal_not_empty(e, m, t);
        if self.prime_modulus() {
            lemma_euclid_over_field(f, en, one, none, none, one, m);
        }
        if let Some((g, u, v)) = poly_euclid(f, e, m) {
            lemma_euclid_chain(f, en, one, none, none, one, m);
            let d = self.dim() as int;
            assert(g.len() <= d);
            let a0 = choose|a: Seq<int>| is_multiple(f, a, g, m);
            // Modulo p, f is still a0 * g.
            assert(is_multiple(f, a0, g, p)) by {
                assert forall|k: int| #![trigger coef(f, k)] coef(f, k) % p == prod_coef(a0, g, k)
                    % p by {
                    assert(coef(f, k) % m == prod_coef(a0, g, k) % m);
                    lemma_cong_mod_factor(coef(f, k), prod_coef(a0, g, k), m, p);
                }
            }
            lemma_unit_nonzero_mod_factor(g.last(), m, p);
            lemma_normal_keeps_length(g, p);
            let n0 = normal(a0, p);
            if n0.len() == 1 {
                // Then f = c * g modulo p has degree below d.
                lemma_normal(a0, p);
                lemma_prod_cong_left(a0, n0, g, d, p);
                assert(row_sum(n0, g, d, 0) == 0);
                assert(coef(g, d) == 0);
                assert(n0[0] * 0 == 0);
                assert(prod_coef(n0, g, d) == 0);
                assert(coef(f, d) % p == prod_coef(a0, g, d) % p);
                lemma_small_mod(0, p as nat);
                lemma_unit_nonzero_mod_factor(f.last(), m, p);
                assert(false);
            }
            assert(g.len() == 1);
        }
    }

    /// The difference of two points of the exceptional set is not zero
    /// modulo `p`.
    pub proof fn lemma_exceptional_difference(&self, i: int, j: int)
        requires
            self.wf(),
            0 <= i < self.exceptional_count(),
            0 <= j < self.exceptional_count(),
            i != j,
        ensures
            nonzero_mod(
                self.ring_sub(self.exceptional_point(i), self.exceptional_point(j)),
                self.residue_prime(),
            ),
            self.contains(self.ring_sub(self.exceptional_point(i), self.exceptional_point(j))),
    {
        let m = self.m();
        let p = self.residue_prime();
        let d = self.dim();
        let a = self.exceptional_point(i);
        let b = self.exceptional_point(j);
        let e = self.ring_sub(a, b);
        self.lemma_residue_prime();
        self.lemma_results_are_elements();
        if a == b {
            lemma_digits_injective(i, j, p, d);
        }
        assert(exists|t: int| 0 <= t < d && a[t] != b[t]) by {
            if forall|t: int| 0 <= t < d ==> a[t] == b[t] {
                assert(a =~= b);
            }
        }
        let t = choose|t: int| 0 <= t < d && a[t] != b[t];
        lemma_mod_bound(i / pow(p, t as nat), p);
        lemma_mod_bound(j / pow(p, t as nat), p);
        let x = a[t] - b[t];
        assert(e[t] == x % m);
        lemma_mod_twice(x, m);
        lemma_cong_mod_factor(e[t], x, m, p);
        assert(x % p != 0) by {
            if x > 0 {
                lemma_small_mod(x as nat, p as nat);
            } else {
                lemma_small_mod((x + p) as nat, p as nat);
                lemma_mod_multiples_vanish(1, x, p);
            }
        }
        assert(0 <= t < e.len() && e[t] % p != 0);
    }

    /// The differences of the exceptional set: where the defining
    /// polynomial is irreducible modulo `p`, the inversion of the
    /// difference of two points of the exceptional set finds the inverse
    /// unless the Euclidean algorithm gets stuck on a remainder whose
    /// leading coefficient is no unit, and over a field it always finds it.
    pub proof fn lemma_exceptional_differences_are_units(&self, i: int, j: int)
        requires
            self.wf(),
            self.f_is_irreducible(),
            0 <= i < self.exceptional_count(),
            0 <= j < self.exceptional_count(),
            i != j,
        ensures
            ({
                let e = self.ring_sub(self.exceptional_point(i), self.exceptional_point(j));
                &&& poly_euclid(self.f(), e, self.m()) is Some ==> self.ring_inverse(e) is Ok
                &&& self.ring_inverse(e) is Err ==> self.ring_inverse(e) == Err::<
                    Seq<int>,
                    RingError,
                >(RingError::NotInvertible)
                &&& self.prime_modulus() ==> self.ring_inverse(e) is Ok
            }),
    {
        self.lemma_exceptional_difference(i, j);
        self.lemma_inverse_of_residue_unit(
            self.ring_sub(self.exceptional_point(i), self.exceptional_point(j)),
        );
    }

    /// The round trip over a field: where the modulus is a prime and the
    /// defining polynomial is irreducible, the combiner gets the secret
    /// `c[0]` back from any shares with different numbers that the dealer
    /// hands out for the sharing polynomial `c`, if they are at least as
    /// many as `c` has coefficients.
    pub proof fn lemma_round_trip_over_field(&self, c: Seq<Seq<int>>, n: nat, chosen: Seq<int>)
        requires
            self.wf(),
            self.prime_modulus(),
            self.f_is_irreducible(),
            self.all_elements(c),
            1 <= c.len() <= chosen.len(),
            n < self.exceptional_count(),
            forall|k: int| 0 <= k < chosen.len() ==> 0 <= #[trigger] chosen[k] < n,
            forall|k: int, l: int|
                0 <= k < chosen.len() && 0 <= l < chosen.len() && k != l ==> chosen[k]
                    != chosen[l],
        ensures
            ({
                let all = self.dealt(c, n);
                let taken = Seq::new(chosen.len(), |k: int| all[chosen[k]]);
                self.reconstruct_spec(points(taken), share_values(taken)) == Ok::<
                    Seq<int>,
                    RingError,
                >(c[0])
            }),
    {
        let all = self.dealt(c, n);
        let taken = Seq::new(chosen.len(), |k: int| all[chosen[k]]);
        let xs = points(taken);
        self.lemma_round_trip(c, n, chosen);
        assert forall|k: int, l: int|
            0 <= k < chosen.len() && 0 <= l < chosen.len() && k != l implies (
        #[trigger] self.ring_inverse(self.ring_sub(xs[k], xs[l]))) is Ok by {
            self.lemma_exceptional_differences_are_units(chosen[k] + 1, chosen[l] + 1);
        }
    }
}

} // verus!
