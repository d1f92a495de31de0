//! Long division of polynomials over `Z/mZ` by a divisor whose leading
//! coefficient is a unit.

use crate::error::RingError;
use crate::integer::Int;
use crate::modint::{
    inverse_of, is_inverse, is_unit, lemma_cong_add, lemma_cong_sub, mod_inverse, mul_mod, sub_mod,
};
use crate::poly_spec::{
    coef, congruent, is_canonical, is_trimmed, lemma_normal, lemma_normal_of_class,
    lemma_normal_of_normal, lemma_normal_unique, lemma_prod_shift_scale, lemma_prod_top,
    lemma_row_sum_add_left, lemma_row_sum_beyond, lemma_row_sum_cong_left,
    lemma_row_sum_cong_right, lemma_row_sum_zero_left, lemma_trim, longer, normal, poly_sub,
    prod_coef, row_sum, same_poly, trim, zeros,
};
use crate::polynomial::{values, Polynomial};
use vstd::arithmetic::div_mod::{
    lemma_mod_bound, lemma_mod_twice, lemma_mul_mod_noop_left, lemma_mul_mod_noop_right,
    lemma_small_mod,
};
use vstd::arithmetic::mul::{lemma_mul_is_associative, lemma_mul_is_commutative};
use vstd::prelude::*;

verus! {

/// The remainder `r` after its top term has been cancelled by subtracting
/// `c * x^k * b`: the coefficients below the top, reduced and trimmed.
pub open spec fn cancel_top(r: Seq<int>, b: Seq<int>, c: int, k: int, m: int) -> Seq<int> {
    trim(Seq::new((r.len() - 1) as nat, |i: int| (r[i] - c * coef(b, i - k)) % m))
}

/// The steps of long division: while the remainder `r` is at least as long
/// as the divisor `b`, the quotient gets the coefficient that cancels the
/// top term of the remainder. `linv` is the inverse of the leading
/// coefficient of `b`.
pub open spec fn div_loop(q: Seq<int>, r: Seq<int>, b: Seq<int>, linv: int, m: int) -> (
    Seq<int>,
    Seq<int>,
)
    decreases r.len(),
{
    if b.len() == 0 || r.len() < b.len() {
        (q, r)
    } else {
        let k = r.len() - b.len();
        let c = (r.last() * linv) % m;
        proof {
            lemma_trim(Seq::new((r.len() - 1) as nat, |i: int| (r[i] - c * coef(b, i - k)) % m));
        }
        div_loop(q.update(k, c), cancel_top(r, b, c, k, m), b, linv, m)
    }
}

/// The divisor, taken modulo `m`, is not zero and its leading coefficient
/// is a unit.
pub open spec fn has_unit_lead(b: Seq<int>, m: int) -> bool {
    normal(b, m).len() > 0 && is_unit(normal(b, m).last(), m)
}

/// Quotient and remainder of `a` by `b` over `Z/mZ`, both canonical and
/// trimmed.
pub open spec fn poly_divrem(a: Seq<int>, b: Seq<int>, m: int) -> (Seq<int>, Seq<int>)
    recommends
        has_unit_lead(b, m),
{
    let an = normal(a, m);
    let bn = normal(b, m);
    if an.len() < bn.len() {
        (Seq::empty(), an)
    } else {
        let start = zeros((an.len() - bn.len() + 1) as nat);
        let (q, r) = div_loop(start, an, bn, inverse_of(bn.last(), m), m);
        (trim(q), r)
    }
}

/// The remainder of `a` by `b` over `Z/mZ`.
pub open spec fn poly_rem(a: Seq<int>, b: Seq<int>, m: int) -> Seq<int>
    recommends
        has_unit_lead(b, m),
{
    poly_divrem(a, b, m).1
}

/// `a = q * b + r` over `Z/mZ`.
pub open spec fn division_holds(
    a: Seq<int>,
    b: Seq<int>,
    q: Seq<int>,
    r: Seq<int>,
    m: int,
) -> bool {
    forall|k: int| #![trigger coef(a, k)] coef(a, k) % m == (prod_coef(q, b, k) + coef(r, k)) % m
}

/// Polynomials that are the same over the integers have the same products.
pub proof fn lemma_prod_same_left(p: Seq<int>, pb: Seq<int>, q: Seq<int>, k: int)
    requires
        same_poly(p, pb),
    ensures
        prod_coef(p, q, k) == prod_coef(pb, q, k),
{
    let n = longer(p.len(), pb.len()) as int;
    assert forall|i: int| 0 <= i < n implies #[trigger] coef(p, i) == coef(pb, i) + coef(
        zeros(0),
        i,
    ) by {}
    lemma_row_sum_add_left(p, pb, zeros(0), q, k, n);
    lemma_row_sum_zero_left(zeros(0), q, k, n);
    lemma_row_sum_beyond(p, q, k, n);
    lemma_row_sum_beyond(pb, q, k, n);
}

/// Left factors of the same class give products of the same class.
pub proof fn lemma_prod_cong_left(p: Seq<int>, pb: Seq<int>, q: Seq<int>, k: int, m: int)
    requires
        m > 0,
        congruent(p, pb, m),
    ensures
        prod_coef(p, q, k) % m == prod_coef(pb, q, k) % m,
{
    let n = longer(p.len(), pb.len()) as int;
    assert forall|i: int| 0 <= i < n implies #[trigger] coef(p, i) % m == coef(pb, i) % m by {}
    lemma_row_sum_cong_left(p, pb, q, k, n, m);
    lemma_row_sum_beyond(p, q, k, n);
    lemma_row_sum_beyond(pb, q, k, n);
}

/// Right factors of the same class give products of the same class.
pub proof fn lemma_prod_cong_right(p: Seq<int>, q: Seq<int>, q2: Seq<int>, k: int, m: int)
    requires
        m > 0,
        congruent(q, q2, m),
    ensures
        prod_coef(p, q, k) % m == prod_coef(p, q2, k) % m,
{
    let n = p.len() as int;
    assert forall|i: int| 0 <= i < n implies #[trigger] coef(q, k - i) % m == coef(q2, k - i)
        % m by {}
    lemma_row_sum_cong_right(p, q, q2, k, n, m);
}

/// One step of long division keeps `a = q * b + r`.
proof fn lemma_div_step(a: Seq<int>, q: Seq<int>, r: Seq<int>, b: Seq<int>, linv: int, m: int)
    requires
        m > 0,
        b.len() > 0,
        is_inverse(b.last(), linv, m),
        is_canonical(r, m),
        r.len() >= b.len(),
        r.len() - b.len() < q.len(),
        q[r.len() - b.len()] == 0,
        division_holds(a, b, q, r, m),
    ensures
        ({
            let k = r.len() - b.len();
            let c = (r.last() * linv) % m;
            division_holds(a, b, q.update(k, c), cancel_top(r, b, c, k, m), m)
        }),
{
    let k = r.len() - b.len();
    let top = r.len() - 1;
    let c = (r.last() * linv) % m;
    let q2 = q.update(k, c);
    let x = Seq::new((r.len() - 1) as nat, |i: int| (r[i] - c * coef(b, i - k)) % m);
    let r2 = cancel_top(r, b, c, k, m);
    lemma_trim(x);
    // The term that the quotient gains.
    let t = zeros(q.len()).update(k, c);
    let unit = seq![1int];
    assert forall|i: int| #[trigger] coef(t, i) == c * coef(unit, i - k) by {
        if i == k {
            assert(c * 1 == c);
        } else {
            assert(c * 0 == 0);
        }
    }
    // The top term cancels: c * lead(b) is r.last() modulo m.
    assert((c * b.last()) % m == r.last() % m) by {
        lemma_mul_mod_noop_left(r.last() * linv, b.last(), m);
        lemma_mul_is_associative(r.last(), linv, b.last());
        lemma_mul_is_commutative(linv, b.last());
        lemma_mul_mod_noop_right(r.last(), b.last() * linv, m);
        assert(r.last() * 1 == r.last());
    }
    assert forall|j: int| #![trigger coef(a, j)] coef(a, j) % m == (prod_coef(q2, b, j) + coef(
        r2,
        j,
    )) % m by {
        assert forall|i: int| 0 <= i < q.len() implies #[trigger] coef(q2, i) == coef(q, i)
            + coef(t, i) by {}
        lemma_row_sum_add_left(q2, q, t, b, j, q.len() as int);
        lemma_prod_shift_scale(t, unit, b, c, k, j);
        assert(prod_coef(unit, b, j - k) == coef(b, j - k)) by {
            assert(row_sum(unit, b, j - k, 0) == 0);
            assert(1 * coef(b, j - k) == coef(b, j - k));
        }
        let s = c * coef(b, j - k);
        assert(prod_coef(q2, b, j) == prod_coef(q, b, j) + s);
        // The new remainder is the old one minus s, modulo m.
        assert(coef(r2, j) % m == (coef(r, j) - s) % m) by {
            assert(coef(r2, j) == coef(x, j));
            if 0 <= j < top {
                lemma_mod_twice(r[j] - s, m);
            } else if j == top {
                assert(coef(b, j - k) == b.last());
                lemma_cong_sub(r.last(), r.last(), s, r.last(), m);
                lemma_small_mod(0, m as nat);
            } else {
                assert(coef(b, j - k) == 0);
                assert(c * 0 == 0);
            }
        }
        assert(coef(a, j) % m == (prod_coef(q, b, j) + coef(r, j)) % m);
        lemma_cong_add(prod_coef(q2, b, j), prod_coef(q2, b, j), coef(r2, j), coef(r, j) - s, m);
    }
}

/// Long division from a state with `a = q * b + r` ends with `a = q * b + r`
/// and a remainder shorter than the divisor.
proof fn lemma_div_loop(a: Seq<int>, q: Seq<int>, r: Seq<int>, b: Seq<int>, linv: int, m: int)
    requires
        m > 0,
        b.len() > 0,
        is_inverse(b.last(), linv, m),
        is_canonical(r, m),
        is_trimmed(r),
        is_canonical(q, m),
        r.len() - b.len() < q.len(),
        forall|i: int| 0 <= i <= r.len() - b.len() ==> #[trigger] q[i] == 0,
        division_holds(a, b, q, r, m),
    ensures
        ({
            let (qq, rr) = div_loop(q, r, b, linv, m);
            &&& division_holds(a, b, qq, rr, m)
            &&& is_canonical(rr, m)
            &&& is_trimmed(rr)
            &&& rr.len() < b.len()
            &&& is_canonical(qq, m)
            &&& qq.len() == q.len()
        }),
    decreases r.len(),
{
    if r.len() >= b.len() {
        let k = r.len() - b.len();
        let c = (r.last() * linv) % m;
        let q2 = q.update(k, c);
        let x = Seq::new((r.len() - 1) as nat, |i: int| (r[i] - c * coef(b, i - k)) % m);
        let r2 = cancel_top(r, b, c, k, m);
        assert(q[k] == 0);
        lemma_div_step(a, q, r, b, linv, m);
        lemma_trim(x);
        lemma_mod_bound(r.last() * linv, m);
        assert forall|i: int| 0 <= i < r2.len() implies 0 <= #[trigger] r2[i] < m by {
            assert(r2[i] == x[i]);
            lemma_mod_bound(r[i] - c * coef(b, i - k), m);
        }
        assert forall|i: int| 0 <= i < q2.len() implies 0 <= #[trigger] q2[i] < m by {
            if i != k {
                assert(q2[i] == q[i]);
            }
        }
        assert forall|i: int| 0 <= i <= r2.len() - b.len() implies #[trigger] q2[i] == 0 by {
            assert(q2[i] == q[i]);
        }
        lemma_div_loop(a, q2, r2, b, linv, m);
    }
}

/// The division identity: the quotient and remainder of `a` by `b` satisfy
/// `a = q * b + r` over `Z/mZ`, the remainder has a lower degree than the
/// divisor, and both are canonical and trimmed.
pub proof fn lemma_division(a: Seq<int>, b: Seq<int>, m: int)
    requires
        has_unit_lead(b, m),
    ensures
        ({
            let (q, r) = poly_divrem(a, b, m);
            &&& division_holds(a, b, q, r, m)
            &&& r.len() < normal(b, m).len()
            &&& is_canonical(q, m)
            &&& is_trimmed(q)
            &&& is_canonical(r, m)
            &&& is_trimmed(r)
        }),
{
    let an = normal(a, m);
    let bn = normal(b, m);
    let linv = inverse_of(bn.last(), m);
    assert(m > 0);
    lemma_normal(a, m);
    lemma_normal(b, m);
    let (q, r) = poly_divrem(a, b, m);
    if an.len() < bn.len() {
        assert forall|k: int| #![trigger coef(a, k)] coef(a, k) % m == (prod_coef(q, b, k) + coef(
            r,
            k,
        )) % m by {
            assert(prod_coef(q, b, k) == 0);
            assert(coef(an, k) % m == coef(a, k) % m);
        }
    } else {
        let start = zeros((an.len() - bn.len() + 1) as nat);
        assert forall|k: int| #![trigger coef(a, k)] coef(a, k) % m == (prod_coef(start, bn, k)
            + coef(an, k)) % m by {
            assert forall|i: int| 0 <= i < start.len() implies #[trigger] coef(start, i) == 0 by {}
            lemma_row_sum_zero_left(start, bn, k, start.len() as int);
            assert(coef(an, k) % m == coef(a, k) % m);
        }
        assert(division_holds(a, bn, start, an, m));
        assert(is_canonical(start, m));
        lemma_div_loop(a, start, an, bn, linv, m);
        let (qq, rr) = div_loop(start, an, bn, linv, m);
        lemma_trim(qq);
        assert forall|i: int| 0 <= i < q.len() implies 0 <= #[trigger] q[i] < m by {
            assert(q[i] == qq[i]);
        }
        assert forall|k: int| #![trigger coef(a, k)] coef(a, k) % m == (prod_coef(q, b, k) + coef(
            r,
            k,
        )) % m by {
            lemma_prod_same_left(q, qq, b, k);
            lemma_prod_cong_right(qq, b, bn, k, m);
            assert(coef(a, k) % m == (prod_coef(qq, bn, k) + coef(rr, k)) % m);
            lemma_cong_add(prod_coef(qq, b, k), prod_coef(qq, bn, k), coef(rr, k), coef(rr, k), m);
        }
    }
}

/// A remainder of lower degree than the divisor is its own remainder.
pub proof fn lemma_rem_of_short(a: Seq<int>, b: Seq<int>, m: int)
    requires
        m > 0,
        is_canonical(a, m),
        is_trimmed(a),
        a.len() < normal(b, m).len(),
    ensures
        poly_divrem(a, b, m) == (Seq::<int>::empty(), a),
{
    lemma_normal_of_normal(a, m);
}

/// Quotient and remainder depend on the classes of dividend and divisor
/// only.
pub proof fn lemma_divrem_of_class(a: Seq<int>, a2: Seq<int>, b: Seq<int>, b2: Seq<int>, m: int)
    requires
        m > 0,
        congruent(a, a2, m),
        congruent(b, b2, m),
    ensures
        poly_divrem(a, b, m) == poly_divrem(a2, b2, m),
        has_unit_lead(b, m) == has_unit_lead(b2, m),
{
    lemma_normal_of_class(a, a2, m);
    lemma_normal_of_class(b, b2, m);
}

/// There is one quotient and one remainder: any canonical, trimmed `q` and
/// `r` with `a = q * b + r` and `r` of lower degree than `b` are the
/// quotient and remainder of `a` by `b`.
pub proof fn lemma_division_unique(a: Seq<int>, b: Seq<int>, q: Seq<int>, r: Seq<int>, m: int)
    requires
        has_unit_lead(b, m),
        division_holds(a, b, q, r, m),
        is_canonical(q, m),
        is_trimmed(q),
        is_canonical(r, m),
        is_trimmed(r),
        r.len() < normal(b, m).len(),
    ensures
        poly_divrem(a, b, m) == (q, r),
{
    let bn = normal(b, m);
    let (q2, r2) = poly_divrem(a, b, m);
    assert(m > 0);
    lemma_division(a, b, m);
    lemma_normal(b, m);
    let d = normal(poly_sub(q, q2), m);
    lemma_normal(poly_sub(q, q2), m);
    // d * b = r2 - r over Z/mZ.
    assert forall|k: int| (prod_coef(d, bn, k) - (coef(r2, k) - coef(r, k))) % m == 0 by {
        let df = poly_sub(q, q2);
        lemma_prod_cong_left(d, df, bn, k, m);
        let n = df.len() as int;
        // q = q2 + (q - q2)
        assert forall|i: int| 0 <= i < n implies #[trigger] coef(q, i) == coef(q2, i) + coef(
            df,
            i,
        ) by {}
        lemma_row_sum_add_left(q, q2, df, bn, k, n);
        lemma_row_sum_beyond(q, bn, k, n);
        lemma_row_sum_beyond(q2, bn, k, n);
        assert(prod_coef(df, bn, k) == prod_coef(q, bn, k) - prod_coef(q2, bn, k));
        lemma_prod_cong_right(q, b, bn, k, m);
        lemma_prod_cong_right(q2, b, bn, k, m);
        assert(coef(a, k) % m == (prod_coef(q, b, k) + coef(r, k)) % m);
        assert(coef(a, k) % m == (prod_coef(q2, b, k) + coef(r2, k)) % m);
        lemma_cong_add(prod_coef(q, bn, k), prod_coef(q, b, k), coef(r, k), coef(r, k), m);
        lemma_cong_add(prod_coef(q2, bn, k), prod_coef(q2, b, k), coef(r2, k), coef(r2, k), m);
        // (q.bn + r) == (q2.bn + r2) modulo m
        lemma_cong_sub(
            prod_coef(q, bn, k) + coef(r, k),
            prod_coef(q2, bn, k) + coef(r2, k),
            prod_coef(q2, bn, k) + coef(r, k),
            prod_coef(q2, bn, k) + coef(r, k),
            m,
        );
        lemma_cong_sub(prod_coef(d, bn, k), prod_coef(df, bn, k), coef(r2, k) - coef(r, k), coef(
            r2,
            k,
        ) - coef(r, k), m);
        lemma_cong_sub(
            prod_coef(q, bn, k) - prod_coef(q2, bn, k),
            coef(r2, k) - coef(r, k),
            coef(r2, k) - coef(r, k),
            coef(r2, k) - coef(r, k),
            m,
        );
        lemma_small_mod(0, m as nat);
    }
    if d.len() > 0 {
        let k = d.len() + bn.len() - 2;
        lemma_prod_top(d, bn);
        assert((prod_coef(d, bn, k) - (coef(r2, k) - coef(r, k))) % m == 0);
        assert(coef(r2, k) == 0 && coef(r, k) == 0);
        let linv = inverse_of(bn.last(), m);
        // d.last() == d.last() * lead * linv == 0 modulo m
        assert(is_inverse(bn.last(), linv, m));
        assert((d.last() * bn.last()) % m == 0) by {
            lemma_small_mod(0, m as nat);
            vstd::arithmetic::div_mod::lemma_mod_equivalence(prod_coef(d, bn, k), 0, m);
        }
        lemma_mul_mod_noop_left(d.last() * bn.last(), linv, m);
        lemma_mul_is_associative(d.last(), bn.last(), linv);
        lemma_mul_mod_noop_right(d.last(), bn.last() * linv, m);
        assert(d.last() * 1 == d.last());
        assert(0 * linv == 0);
        lemma_small_mod(0, m as nat);
        assert(d.last() % m == 0);
        assert(0 <= d.last() < m);
        lemma_small_mod(d.last() as nat, m as nat);
        assert(false);
    }
    // q and q2 are of the same class, so they are equal; then r and r2.
    assert forall|i: int| coef(q, i) % m == coef(q2, i) % m by {
        let df = poly_sub(q, q2);
        assert(coef(d, i) % m == coef(df, i) % m);
        assert(coef(d, i) == 0);
        assert(coef(df, i) == coef(q, i) - coef(q2, i));
        lemma_small_mod(0, m as nat);
        vstd::arithmetic::div_mod::lemma_mod_equivalence(coef(q, i), coef(q2, i), m);
    }
    lemma_normal_unique(q, q2, m);
    assert forall|k: int| coef(r, k) % m == coef(r2, k) % m by {
        assert(coef(a, k) % m == (prod_coef(q, b, k) + coef(r, k)) % m);
        assert(coef(a, k) % m == (prod_coef(q2, b, k) + coef(r2, k)) % m);
        lemma_cong_sub(
            prod_coef(q, b, k) + coef(r, k),
            prod_coef(q, b, k) + coef(r2, k),
            prod_coef(q, b, k),
            prod_coef(q, b, k),
            m,
        );
    }
    lemma_normal_unique(r, r2, m);
}

/// Adding a multiple of the divisor to the dividend leaves the remainder as
/// it is: where `p = pb + k * f` over `Z/mZ`, `p` and `pb` have the same
/// remainder by `f`.
pub proof fn lemma_rem_add_multiple(p: Seq<int>, pb: Seq<int>, kk: Seq<int>, f: Seq<int>, m: int)
    requires
        has_unit_lead(f, m),
        forall|k: int|
            #![trigger coef(p, k)]
            coef(p, k) % m == (coef(pb, k) + prod_coef(kk, f, k)) % m,
    ensures
        poly_rem(p, f, m) == poly_rem(pb, f, m),
{
    assert(m > 0);
    let (q2, r2) = poly_divrem(pb, f, m);
    lemma_division(pb, f, m);
    let sum = crate::poly_spec::poly_add(q2, kk);
    let q = normal(sum, m);
    lemma_normal(sum, m);
    assert forall|k: int| #![trigger coef(p, k)] coef(p, k) % m == (prod_coef(q, f, k) + coef(
        r2,
        k,
    )) % m by {
        lemma_prod_cong_left(q, sum, f, k, m);
        let n = sum.len() as int;
        assert forall|i: int| 0 <= i < n implies #[trigger] coef(sum, i) == coef(q2, i) + coef(
            kk,
            i,
        ) by {}
        lemma_row_sum_add_left(sum, q2, kk, f, k, n);
        lemma_row_sum_beyond(q2, f, k, n);
        lemma_row_sum_beyond(kk, f, k, n);
        let a = prod_coef(q2, f, k);
        let b = prod_coef(kk, f, k);
        assert(prod_coef(sum, f, k) == a + b);
        assert(coef(pb, k) % m == (a + coef(r2, k)) % m);
        lemma_cong_add(coef(pb, k), a + coef(r2, k), b, b, m);
        lemma_cong_add(prod_coef(q, f, k), a + b, coef(r2, k), coef(r2, k), m);
    }
    lemma_division_unique(p, f, q, r2, m);
}

/// Long division of `dividend` by `divisor` over `Z/mZ`.
///
/// Fails with `NotInvertible` where the divisor is zero modulo `m` or its
/// leading coefficient is no unit. Otherwise the quotient and the remainder
/// are returned, canonical and trimmed, with
/// `dividend = quotient * divisor + remainder` over `Z/mZ` and the
/// remainder of lower degree than the divisor.
pub fn polynomial_long_division(dividend: &Polynomial, divisor: &Polynomial, modulus: &Int) -> (res:
    Result<(Polynomial, Polynomial), RingError>)
    requires
        modulus@ >= 2,
    ensures
        res is Ok <==> has_unit_lead(divisor@, modulus@),
        res matches Err(e) ==> e == RingError::NotInvertible,
        res matches Ok((q, r)) ==> {
            &&& (q@, r@) == poly_divrem(dividend@, divisor@, modulus@)
            &&& division_holds(dividend@, divisor@, q@, r@, modulus@)
            &&& r@.len() < normal(divisor@, modulus@).len()
            &&& is_canonical(q@, modulus@)
            &&& is_trimmed(q@)
            &&& is_canonical(r@, modulus@)
            &&& is_trimmed(r@)
        },
{
    let ghost m = modulus@;
    let b = divisor.change_ring(modulus).trimmed_poly();
    let lb: usize = b.coeffs.len();
    if lb == 0 {
        return Err(RingError::NotInvertible);
    }
    let linv = match mod_inverse(b.coeffs[lb - 1].clone(), modulus) {
        Some(x) => x,
        None => {
            return Err(RingError::NotInvertible);
        },
    };
    let start = dividend.change_ring(modulus).trimmed_poly();
    proof {
        lemma_division(dividend@, divisor@, m);
    }
    if start.coeffs.len() < lb {
        let quotient = Polynomial::new(Vec::new());
        assert(quotient@ =~= Seq::<int>::empty());
        return Ok((quotient, start));
    }
    let mut rem: Vec<Int> = start.coeffs;
    let lq: usize = rem.len() - lb + 1;
    let mut quot: Vec<Int> = Vec::new();
    let mut z: usize = 0;
    while z < lq
        invariant
            z <= lq,
            quot@.len() == z,
            forall|j: int| 0 <= j < z ==> quot@[j]@ == 0,
        decreases lq - z,
    {
        quot.push(Int::zero());
        z += 1;
    }
    let ghost goal = div_loop(values(quot@), values(rem@), b@, linv@, m);
    proof {
        assert(values(quot@) =~= zeros(lq as nat));
    }
    while rem.len() >= lb
        invariant
            m == modulus@,
            m >= 2,
            lb == b@.len(),
            lb > 0,
            quot@.len() == lq,
            rem@.len() < lb + lq,
            div_loop(values(quot@), values(rem@), b@, linv@, m) == goal,
        decreases rem@.len(),
    {
        let top: usize = rem.len() - 1;
        let k: usize = rem.len() - lb;
        let c = mul_mod(&rem[top], &linv, modulus);
        let ghost r0 = values(rem@);
        let ghost q0 = values(quot@);
        let ghost x = Seq::new(top as nat, |i: int| (r0[i] - c@ * coef(b@, i - k)) % m);
        let zero = Int::zero();
        let mut next: Vec<Int> = Vec::new();
        let mut i: usize = 0;
        while i < top
            invariant
                i <= top,
                top == rem@.len() - 1,
                k == rem@.len() - lb,
                lb == b@.len(),
                lb > 0,
                m == modulus@,
                m >= 2,
                zero@ == 0,
                r0 == values(rem@),
                next@.len() == i,
                forall|j: int| 0 <= j < i ==> next@[j]@ == (r0[j] - c@ * coef(b@, j - k)) % m,
            decreases top - i,
        {
            let bj = if i >= k {
                &b.coeffs[i - k]
            } else {
                &zero
            };
            next.push(sub_mod(&rem[i], &c.times(bj), modulus));
            i += 1;
        }
        quot.set(k, c);
        let mut shorter = Polynomial::new(next);
        proof {
            assert(shorter@ =~= x);
        }
        shorter.trim();
        proof {
            lemma_trim(x);
            assert(values(quot@) =~= q0.update(k as int, (r0.last() * linv@) % m));
            assert(shorter@ == cancel_top(r0, b@, (r0.last() * linv@) % m, k as int, m));
        }
        rem = shorter.coeffs;
    }
    let mut quotient = Polynomial::new(quot);
    quotient.trim();
    let remainder = Polynomial::new(rem);
    Ok((quotient, remainder))
}

impl Polynomial {
    /// The remainder of this polynomial by `divisor` over `Z/mZ`, or
    /// `NotInvertible` where the divisor is zero modulo `m` or its leading
    /// coefficient is no unit.
    pub fn rem(&self, divisor: &Polynomial, modulus: &Int) -> (res: Result<Polynomial, RingError>)
        requires
            modulus@ >= 2,
        ensures
            res is Ok <==> has_unit_lead(divisor@, modulus@),
            res matches Err(e) ==> e == RingError::NotInvertible,
            res matches Ok(r) ==> {
                &&& r@ == poly_rem(self@, divisor@, modulus@)
                &&& r@.len() < normal(divisor@, modulus@).len()
                &&& is_canonical(r@, modulus@)
                &&& is_trimmed(r@)
            },
    {
        match polynomial_long_division(self, divisor, modulus) {
            Ok((_, r)) => Ok(r),
            Err(e) => Err(e),
        }
    }
}

} // verus!
