//! The extended Euclidean algorithm on polynomials over `Z/mZ`.
//!
//! Over a ring with zero divisors the algorithm can get stuck: a remainder
//! whose leading coefficient is no unit cannot be divided by. Where it does
//! not get stuck it ends with polynomials `g`, `u`, `v` such that
//! `u * a + v * b = g` over `Z/mZ`.

use crate::division::{
    division_holds, has_unit_lead, lemma_division, lemma_prod_cong_left, lemma_prod_cong_right,
    poly_divrem, polynomial_long_division,
};
use crate::error::RingError;
use crate::integer::Int;
use crate::modint::{is_unit, lemma_cong_add, lemma_cong_sub};
use crate::poly_spec::{
    coef, congruent, is_canonical, is_trimmed, lemma_normal, lemma_normal_of_class,
    lemma_poly_mul_coef, lemma_prod_associates, lemma_reduce, lemma_row_sum_add_left,
    lemma_row_sum_add_right, lemma_row_sum_beyond, normal, poly_add, poly_mul, poly_sub, prod_coef,
    reduce, row_sum,
};
use crate::polynomial::Polynomial;
use vstd::prelude::*;

verus! {

/// `g = u * a + v * b` over `Z/mZ`.
pub open spec fn bezout_holds(
    a: Seq<int>,
    b: Seq<int>,
    g: Seq<int>,
    u: Seq<int>,
    v: Seq<int>,
    m: int,
) -> bool {
    forall|k: int|
        #![trigger coef(g, k)]
        coef(g, k) % m == (prod_coef(u, a, k) + prod_coef(v, b, k)) % m
}

/// The next cofactor: `s_prev - q * s_cur`, canonical and trimmed.
pub open spec fn next_cofactor(s_prev: Seq<int>, s_cur: Seq<int>, q: Seq<int>, m: int) -> Seq<int> {
    normal(poly_sub(s_prev, poly_mul(q, s_cur)), m)
}

/// A modulus that has a unit is at least two.
pub proof fn lemma_unit_modulus(a: int, m: int)
    requires
        is_unit(a, m),
    ensures
        m >= 2,
{
    if m == 1 {
        let x = choose|x: int| crate::modint::is_inverse(a, x, m);
        assert((a * x) % 1 == 0);
    }
}

/// The steps of the algorithm from the remainders `r_prev`, `r_cur` and their
/// cofactors: `None` where a remainder cannot be divided by.
pub open spec fn euclid_loop(
    r_prev: Seq<int>,
    r_cur: Seq<int>,
    s_prev: Seq<int>,
    s_cur: Seq<int>,
    t_prev: Seq<int>,
    t_cur: Seq<int>,
    m: int,
) -> Option<(Seq<int>, Seq<int>, Seq<int>)>
    decreases r_cur.len(),
{
    if r_cur.len() == 0 {
        Some((r_prev, s_prev, t_prev))
    } else if !has_unit_lead(r_cur, m) {
        None
    } else {
        let (q, r_next) = poly_divrem(r_prev, r_cur, m);
        proof {
            lemma_unit_modulus(normal(r_cur, m).last(), m);
            lemma_division(r_prev, r_cur, m);
            lemma_normal(r_cur, m);
        }
        euclid_loop(
            r_cur,
            r_next,
            s_cur,
            next_cofactor(s_prev, s_cur, q, m),
            t_cur,
            next_cofactor(t_prev, t_cur, q, m),
            m,
        )
    }
}

/// What the extended Euclidean algorithm gives on `a` and `b`: the last
/// remainder that is not zero and the two cofactors, or `None` where the
/// algorithm gets stuck.
pub open spec fn poly_euclid(a: Seq<int>, b: Seq<int>, m: int) -> Option<
    (Seq<int>, Seq<int>, Seq<int>),
> {
    euclid_loop(
        normal(a, m),
        normal(b, m),
        seq![1int],
        Seq::empty(),
        Seq::empty(),
        seq![1int],
        m,
    )
}

/// `r = s * a + t * b` over `Z/mZ` stays true through one step.
proof fn lemma_euclid_step(
    a: Seq<int>,
    b: Seq<int>,
    r_prev: Seq<int>,
    r_cur: Seq<int>,
    s_prev: Seq<int>,
    s_cur: Seq<int>,
    t_prev: Seq<int>,
    t_cur: Seq<int>,
    q: Seq<int>,
    r_next: Seq<int>,
    m: int,
)
    requires
        m > 0,
        bezout_holds(a, b, r_prev, s_prev, t_prev, m),
        bezout_holds(a, b, r_cur, s_cur, t_cur, m),
        division_holds(r_prev, r_cur, q, r_next, m),
    ensures
        bezout_holds(
            a,
            b,
            r_next,
            next_cofactor(s_prev, s_cur, q, m),
            next_cofactor(t_prev, t_cur, q, m),
            m,
        ),
{
    let s_next = next_cofactor(s_prev, s_cur, q, m);
    let t_next = next_cofactor(t_prev, t_cur, q, m);
    let qs = poly_mul(q, s_cur);
    let qt = poly_mul(q, t_cur);
    let ds = poly_sub(s_prev, qs);
    let dt = poly_sub(t_prev, qt);
    let sa = poly_mul(s_cur, a);
    let tb = poly_mul(t_cur, b);
    let sum = poly_add(sa, tb);
    lemma_normal(ds, m);
    lemma_normal(dt, m);
    assert forall|k: int|
        #![trigger coef(r_next, k)]
        coef(r_next, k) % m == (prod_coef(s_next, a, k) + prod_coef(t_next, b, k)) % m by {
        // s_next * a = s_prev * a - q * (s_cur * a), and the same for t_next.
        lemma_cofactor_product(s_prev, s_cur, q, a, k, m);
        lemma_cofactor_product(t_prev, t_cur, q, b, k, m);
        let x1 = prod_coef(s_prev, a, k);
        let y1 = prod_coef(q, sa, k);
        let x2 = prod_coef(t_prev, b, k);
        let y2 = prod_coef(q, tb, k);
        assert(prod_coef(s_next, a, k) % m == (x1 - y1) % m);
        assert(prod_coef(t_next, b, k) % m == (x2 - y2) % m);
        // q * r_cur = q * (s_cur * a) + q * (t_cur * b)
        assert(congruent(r_cur, sum, m)) by {
            assert forall|j: int|
                #![trigger coef(r_cur, j)]
                #![trigger coef(sum, j)]
                coef(r_cur, j) % m == coef(sum, j) % m by {
                lemma_poly_mul_coef(s_cur, a, j);
                lemma_poly_mul_coef(t_cur, b, j);
            }
        }
        lemma_prod_cong_right(q, r_cur, sum, k, m);
        assert forall|i: int| 0 <= i < q.len() implies #[trigger] coef(sum, k - i) == coef(
            sa,
            k - i,
        ) + coef(tb, k - i) by {}
        lemma_row_sum_add_right(q, sum, sa, tb, k, q.len() as int);
        assert(prod_coef(q, r_cur, k) % m == (y1 + y2) % m);
        // r_next = r_prev - q * r_cur
        assert(coef(r_prev, k) % m == (prod_coef(q, r_cur, k) + coef(r_next, k)) % m);
        assert(coef(r_prev, k) % m == (x1 + x2) % m);
        lemma_cong_sub(
            prod_coef(q, r_cur, k) + coef(r_next, k),
            x1 + x2,
            prod_coef(q, r_cur, k),
            y1 + y2,
            m,
        );
        assert(coef(r_next, k) % m == ((x1 + x2) - (y1 + y2)) % m);
        lemma_cong_add(prod_coef(s_next, a, k), x1 - y1, prod_coef(t_next, b, k), x2 - y2, m);
    }
}

/// `(s_prev - q * s_cur) * a = s_prev * a - q * (s_cur * a)` over `Z/mZ`.
proof fn lemma_cofactor_product(
    s_prev: Seq<int>,
    s_cur: Seq<int>,
    q: Seq<int>,
    a: Seq<int>,
    k: int,
    m: int,
)
    requires
        m > 0,
    ensures
        prod_coef(next_cofactor(s_prev, s_cur, q, m), a, k) % m == (prod_coef(s_prev, a, k)
            - prod_coef(q, poly_mul(s_cur, a), k)) % m,
{
    let qs = poly_mul(q, s_cur);
    let ds = poly_sub(s_prev, qs);
    lemma_normal(ds, m);
    lemma_prod_cong_left(next_cofactor(s_prev, s_cur, q, m), ds, a, k, m);
    let n = ds.len() as int;
    assert forall|i: int| 0 <= i < n implies #[trigger] coef(s_prev, i) == coef(ds, i) + coef(
        qs,
        i,
    ) by {}
    lemma_row_sum_add_left(s_prev, ds, qs, a, k, n);
    lemma_row_sum_beyond(s_prev, a, k, n);
    lemma_row_sum_beyond(qs, a, k, n);
    lemma_prod_associates(q, s_cur, a, k);
}

/// The algorithm keeps `r = s * a + t * b` to its end, and what it returns
/// is canonical and trimmed.
proof fn lemma_euclid_loop(
    a: Seq<int>,
    b: Seq<int>,
    r_prev: Seq<int>,
    r_cur: Seq<int>,
    s_prev: Seq<int>,
    s_cur: Seq<int>,
    t_prev: Seq<int>,
    t_cur: Seq<int>,
    m: int,
)
    requires
        m >= 2,
        bezout_holds(a, b, r_prev, s_prev, t_prev, m),
        bezout_holds(a, b, r_cur, s_cur, t_cur, m),
        is_canonical(r_prev, m) && is_trimmed(r_prev),
        is_canonical(r_cur, m) && is_trimmed(r_cur),
        is_canonical(s_prev, m) && is_trimmed(s_prev),
        is_canonical(s_cur, m) && is_trimmed(s_cur),
        is_canonical(t_prev, m) && is_trimmed(t_prev),
        is_canonical(t_cur, m) && is_trimmed(t_cur),
    ensures
        euclid_loop(r_prev, r_cur, s_prev, s_cur, t_prev, t_cur, m) matches Some((g, u, v)) ==> {
            &&& bezout_holds(a, b, g, u, v, m)
            &&& is_canonical(g, m) && is_trimmed(g)
            &&& is_canonical(u, m) && is_trimmed(u)
            &&& is_canonical(v, m) && is_trimmed(v)
        },
    decreases r_cur.len(),
{
    if r_cur.len() > 0 && has_unit_lead(r_cur, m) {
        let (q, r_next) = poly_divrem(r_prev, r_cur, m);
        lemma_division(r_prev, r_cur, m);
        lemma_normal(r_cur, m);
        lemma_euclid_step(a, b, r_prev, r_cur, s_prev, s_cur, t_prev, t_cur, q, r_next, m);
        lemma_normal(poly_sub(s_prev, poly_mul(q, s_cur)), m);
        lemma_normal(poly_sub(t_prev, poly_mul(q, t_cur)), m);
        lemma_euclid_loop(
            a,
            b,
            r_cur,
            r_next,
            s_cur,
            next_cofactor(s_prev, s_cur, q, m),
            t_cur,
            next_cofactor(t_prev, t_cur, q, m),
            m,
        );
    }
}

/// Bezout's identity: where the algorithm on `a` and `b` ends with
/// `(g, u, v)`, then `u * a + v * b = g` over `Z/mZ`, and all three are
/// canonical and trimmed.
pub proof fn lemma_euclid(a: Seq<int>, b: Seq<int>, m: int)
    requires
        m >= 2,
    ensures
        poly_euclid(a, b, m) matches Some((g, u, v)) ==> {
            &&& bezout_holds(a, b, g, u, v, m)
            &&& is_canonical(g, m) && is_trimmed(g)
            &&& is_canonical(u, m) && is_trimmed(u)
            &&& is_canonical(v, m) && is_trimmed(v)
        },
{
    let one = seq![1int];
    let none = Seq::<int>::empty();
    let an = normal(a, m);
    let bn = normal(b, m);
    lemma_normal(a, m);
    lemma_normal(b, m);
    assert forall|k: int| #![trigger coef(an, k)] coef(an, k) % m == (prod_coef(one, a, k)
        + prod_coef(none, b, k)) % m by {
        assert(row_sum(one, a, k, 0) == 0);
        assert(1 * coef(a, k) == coef(a, k));
    }
    assert forall|k: int| #![trigger coef(bn, k)] coef(bn, k) % m == (prod_coef(none, a, k)
        + prod_coef(one, b, k)) % m by {
        assert(row_sum(one, b, k, 0) == 0);
        assert(1 * coef(b, k) == coef(b, k));
    }
    lemma_euclid_loop(a, b, an, bn, one, none, none, one, m);
}

/// The extended Euclidean algorithm on `a` and `b` over `Z/mZ`.
///
/// Returns `(g, u, v)` with `u * a + v * b = g` over `Z/mZ`, where `g` is
/// the last remainder that is not zero. Fails with `NotInvertible` where a
/// remainder has a leading coefficient that is no unit.
pub fn extended_euclidean(a: &Polynomial, b: &Polynomial, modulus: &Int) -> (res: Result<
    (Polynomial, Polynomial, Polynomial),
    RingError,
>)
    requires
        modulus@ >= 2,
    ensures
        res is Ok <==> poly_euclid(a@, b@, modulus@) is Some,
        res matches Err(e) ==> e == RingError::NotInvertible,
        res matches Ok((g, u, v)) ==> {
            &&& poly_euclid(a@, b@, modulus@) == Some((g@, u@, v@))
            &&& bezout_holds(a@, b@, g@, u@, v@, modulus@)
            &&& is_canonical(g@, modulus@) && is_trimmed(g@)
            &&& is_canonical(u@, modulus@) && is_trimmed(u@)
            &&& is_canonical(v@, modulus@) && is_trimmed(v@)
        },
{
    let ghost m = modulus@;
    let mut r_prev = a.change_ring(modulus).trimmed_poly();
    let mut r_cur = b.change_ring(modulus).trimmed_poly();
    let mut s_prev = Polynomial::from_i64s(&vec![1i64]);
    let mut s_cur = Polynomial::new(Vec::new());
    let mut t_prev = Polynomial::new(Vec::new());
    let mut t_cur = Polynomial::from_i64s(&vec![1i64]);
    proof {
        assert(s_prev@ =~= seq![1int]);
        assert(t_cur@ =~= seq![1int]);
        assert(s_cur@ =~= Seq::<int>::empty());
        assert(t_prev@ =~= Seq::<int>::empty());
        lemma_euclid(a@, b@, m);
    }
    while r_cur.coeffs.len() > 0
        invariant
            m == modulus@,
            m >= 2,
            euclid_loop(r_prev@, r_cur@, s_prev@, s_cur@, t_prev@, t_cur@, m) == poly_euclid(
                a@,
                b@,
                m,
            ),
        decreases r_cur@.len(),
    {
        match polynomial_long_division(&r_prev, &r_cur, modulus) {
            Err(e) => {
                return Err(e);
            },
            Ok((q, r_next)) => {
                let s_next = s_prev.sub_mod(&q.mul(&s_cur, modulus), modulus).trimmed_poly();
                let t_next = t_prev.sub_mod(&q.mul(&t_cur, modulus), modulus).trimmed_poly();
                proof {
                    lemma_normal(r_cur@, m);
                    lemma_next_cofactor(s_prev@, s_cur@, q@, m);
                    lemma_next_cofactor(t_prev@, t_cur@, q@, m);
                }
                r_prev = r_cur;
                r_cur = r_next;
                s_prev = s_cur;
                s_cur = s_next;
                t_prev = t_cur;
                t_cur = t_next;
            },
        }
    }
    Ok((r_prev, s_prev, t_prev))
}

/// The cofactor as it is computed, with every intermediate result reduced,
/// is the cofactor.
proof fn lemma_next_cofactor(s_prev: Seq<int>, s_cur: Seq<int>, q: Seq<int>, m: int)
    requires
        m > 0,
    ensures
        crate::poly_spec::trim(reduce(poly_sub(s_prev, reduce(poly_mul(q, s_cur), m)), m))
            == next_cofactor(s_prev, s_cur, q, m),
{
    let qs = poly_mul(q, s_cur);
    let x = poly_sub(s_prev, reduce(qs, m));
    let y = poly_sub(s_prev, qs);
    lemma_reduce(qs, m);
    assert forall|i: int| #![trigger coef(x, i)] #![trigger coef(y, i)] coef(x, i) % m == coef(
        y,
        i,
    ) % m by {
        assert(coef(reduce(qs, m), i) % m == coef(qs, i) % m);
        lemma_cong_sub(coef(s_prev, i), coef(s_prev, i), coef(reduce(qs, m), i), coef(qs, i), m);
    }
    lemma_normal_of_class(x, y, m);
}

} // verus!
